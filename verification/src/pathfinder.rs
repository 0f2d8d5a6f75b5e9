//! The grid builder and the search engine.

pub mod structs;

use vstd::prelude::*;
use vstd::string::StrSliceExecFns;
use crate::pathfinder::structs::{CreationError, Node, Tile};

verus! {

/// Bound on coordinates and map dimensions the builder and the search
/// accept; keeps every heuristic score well inside `i32` and every
/// coordinate step free of overflow.
pub const COORD_LIMIT: i32 = 100000000;

/// The Manhattan distance between `(ax, ay)` and `(bx, by)`.
pub open spec fn manhattan(ax: int, ay: int, bx: int, by: int) -> int {
    (if ax >= bx { ax - bx } else { bx - ax }) + (if ay >= by { ay - by } else { by - ay })
}

/// A start/end coordinate small enough for the heuristic arithmetic.
pub open spec fn coord_in_limit(c: (i32, i32)) -> bool {
    -COORD_LIMIT <= c.0 <= COORD_LIMIT && -COORD_LIMIT <= c.1 <= COORD_LIMIT
}

/// A map character the builder accepts.
pub open spec fn valid_char(c: char) -> bool {
    c == '#' || c == '-'
}

/// The tile the builder produces at `(x, y)` for map character `c`.
pub open spec fn built_tile(x: int, y: int, c: char, start: (i32, i32), end: (i32, i32)) -> Tile {
    Tile {
        x: x as usize,
        y: y as usize,
        path: c == '-',
        node: Node {
            g: manhattan(x, y, start.0 as int, start.1 as int) as u32,
            h: manhattan(x, y, end.0 as int, end.1 as int) as u32,
            f: (manhattan(x, y, start.0 as int, start.1 as int)
                + manhattan(x, y, end.0 as int, end.1 as int)) as i32,
        },
    }
}

/// The row of tiles the builder produces for one line of the map.
pub open spec fn row_matches(
    row: Seq<Tile>,
    line: Seq<char>,
    y: int,
    start: (i32, i32),
    end: (i32, i32),
) -> bool {
    &&& row.len() == line.len()
    &&& forall|x: int|
        0 <= x < line.len() ==> row[x] == built_tile(x, y, line[x], start, end)
}

/// Index of the first `'\n'` in `s`, or -1 if there is none.
pub open spec fn find_newline(s: Seq<char>) -> int
    decreases s.len(),
{
    if s.len() == 0 {
        -1
    } else if s[0] == '\n' {
        0
    } else {
        let r = find_newline(s.drop_first());
        if r == -1 {
            -1
        } else {
            r + 1
        }
    }
}

/// The lines of the map text: `s` split on `'\n'`.  Splitting keeps empty
/// segments, so text with no newline is one line and text ending in a
/// newline ends with an empty line.
pub open spec fn split_lines(s: Seq<char>) -> Seq<Seq<char>>
    decreases s.len(),
{
    let i = find_newline(s);
    if i < 0 || i >= s.len() {
        seq![s]
    } else {
        seq![s.take(i)] + split_lines(s.skip(i + 1))
    }
}

/// `find_newline` returns the position of the first newline when one
/// exists, and -1 otherwise.
pub proof fn lemma_find_newline_props(s: Seq<char>)
    ensures
        -1 <= find_newline(s) < s.len(),
        find_newline(s) >= 0 ==> s[find_newline(s)] == '\n',
        forall|k: int| 0 <= k < find_newline(s) ==> s[k] != '\n',
        find_newline(s) == -1 ==> forall|k: int| 0 <= k < s.len() ==> s[k] != '\n',
    decreases s.len(),
{
    if s.len() > 0 && s[0] != '\n' {
        lemma_find_newline_props(s.drop_first());
        assert forall|k: int| 0 <= k < find_newline(s) implies s[k] != '\n' by {
            if k > 0 {
                assert(s.drop_first()[k - 1] != '\n');
            }
        }
        if find_newline(s) == -1 {
            assert forall|k: int| 0 <= k < s.len() implies s[k] != '\n' by {
                if k > 0 {
                    assert(s.drop_first()[k - 1] != '\n');
                }
            }
        }
    }
}

/// The rows of tiles viewed as mathematical sequences.
pub open spec fn grid_view(m: Seq<Vec<Tile>>) -> Seq<Seq<Tile>> {
    m.map_values(|row: Vec<Tile>| row@)
}

/// The grid the builder produces for the given lines: one row of scored
/// tiles per line, in order.
pub open spec fn grid_matches(
    g: Seq<Seq<Tile>>,
    lines: Seq<Seq<char>>,
    start: (i32, i32),
    end: (i32, i32),
) -> bool {
    &&& g.len() == lines.len()
    &&& forall|y: int| 0 <= y < lines.len() ==> row_matches(g[y], lines[y], y, start, end)
}

/// Converts one line of the map into a row of scored tiles.
///
/// Succeeds exactly when every character of the line is `#` or `-`; any
/// other character fails the whole row with `WrongCharacter`.  On success
/// the row holds, in order, one tile per character, at coordinates
/// `(0, y), (1, y), ...`, scored by Manhattan distance from `start` and to
/// `end`.
pub fn line_to_vec(line: &str, y: i32, start: (i32, i32), end: (i32, i32)) -> (r: Result<
    Vec<Tile>,
    CreationError,
>)
    requires
        0 <= y <= COORD_LIMIT,
        coord_in_limit(start),
        coord_in_limit(end),
        line@.len() <= COORD_LIMIT,
    ensures
        r is Ok <==> (forall|i: int| 0 <= i < line@.len() ==> valid_char(line@[i])),
        r matches Ok(row) ==> row_matches(row@, line@, y as int, start, end),
        r matches Err(e) ==> e == CreationError::WrongCharacter,
{
    let n = line.unicode_len();
    let mut v: Vec<Tile> = Vec::new();
    let mut x: i32 = 0;
    while (x as usize) < n
        invariant
            0 <= y <= COORD_LIMIT,
            coord_in_limit(start),
            coord_in_limit(end),
            n == line@.len() <= COORD_LIMIT,
            0 <= x <= n,
            v@.len() == x as int,
            forall|i: int| 0 <= i < x as int ==> valid_char(line@[i]),
            forall|i: int|
                0 <= i < x as int ==> v@[i] == built_tile(i, y as int, line@[i], start, end),
        decreases n - x,
    {
        let dxs = if x >= start.0 { x - start.0 } else { start.0 - x };
        let dys = if y >= start.1 { y - start.1 } else { start.1 - y };
        let dxe = if x >= end.0 { x - end.0 } else { end.0 - x };
        let dye = if y >= end.1 { y - end.1 } else { end.1 - y };
        let g = dxs + dys;
        let h = dxe + dye;
        let f = g + h;
        let node = Node::new((g, h, f))?;
        let c = line.get_char(x as usize);
        match c {
            '#' => {
                v.push(Tile::new(x, y, false, node)?);
            },
            '-' => {
                v.push(Tile::new(x, y, true, node)?);
            },
            _ => {
                return Err(CreationError::WrongCharacter);
            },
        }
        x = x + 1;
    }
    Ok(v)
}

/// Builds the whole grid from the raw map text.
///
/// The text is split into lines on `'\n'`; row `y` of the grid is the
/// scored row for line `y`.  The build succeeds exactly when every
/// character of the text is `#`, `-` or a newline; any other character
/// anywhere fails the whole build with `WrongCharacter`, and no partial
/// grid is returned.
pub fn init_map(content: &str, start: (i32, i32), end: (i32, i32)) -> (r: Result<
    Vec<Vec<Tile>>,
    CreationError,
>)
    requires
        coord_in_limit(start),
        coord_in_limit(end),
        content@.len() <= COORD_LIMIT,
    ensures
        r is Ok <==> (forall|i: int|
            0 <= i < content@.len() ==> valid_char(content@[i]) || content@[i] == '\n'),
        r matches Ok(m) ==> grid_matches(grid_view(m@), split_lines(content@), start, end),
        r matches Err(e) ==> e == CreationError::WrongCharacter,
{
    let n = content.unicode_len();
    let mut map: Vec<Vec<Tile>> = Vec::new();
    let mut pos: usize = 0;
    let mut y: usize = 0;
    let ghost mut lines_done: Seq<Seq<char>> = Seq::empty();
    proof {
        assert(content@.skip(0) =~= content@);
        assert(lines_done + split_lines(content@) =~~= split_lines(content@));
    }
    loop
        invariant_except_break
            coord_in_limit(start),
            coord_in_limit(end),
            n == content@.len() <= COORD_LIMIT,
            pos <= n,
            y <= pos,
            y == map@.len(),
            y == lines_done.len(),
            split_lines(content@) == lines_done + split_lines(content@.skip(pos as int)),
            grid_matches(grid_view(map@), lines_done, start, end),
            forall|k: int| 0 <= k < pos as int ==> valid_char(content@[k]) || content@[k] == '\n',
        ensures
            grid_matches(grid_view(map@), split_lines(content@), start, end),
            forall|k: int| 0 <= k < content@.len() ==> valid_char(content@[k]) || content@[k]
                == '\n',
        decreases n + 1 - pos,
    {
        let mut j = pos;
        loop
            invariant
                pos <= j <= n,
                n == content@.len(),
                forall|k: int| pos as int <= k < j as int ==> content@[k] != '\n',
            ensures
                pos <= j <= n,
                forall|k: int| pos as int <= k < j as int ==> content@[k] != '\n',
                j < n ==> content@[j as int] == '\n',
            decreases n - j,
        {
            if j == n {
                break ;
            }
            let c = content.get_char(j);
            if c == '\n' {
                break ;
            }
            j = j + 1;
        }
        let line = content.substring_char(pos, j);
        proof {
            let rest = content@.skip(pos as int);
            lemma_find_newline_props(rest);
            if j < n {
                assert(rest[j - pos as int] == '\n');
                assert(find_newline(rest) == j - pos as int) by {
                    if find_newline(rest) < j - pos as int {
                        assert(rest[find_newline(rest)] == '\n');
                        assert(content@[find_newline(rest) + pos as int] != '\n');
                    }
                }
                assert(rest.take(j - pos as int) =~= line@);
                assert(rest.skip(j - pos as int + 1) =~= content@.skip(j + 1));
                assert(split_lines(rest) == seq![line@] + split_lines(content@.skip(j + 1)));
            } else {
                assert(forall|k: int| 0 <= k < rest.len() ==> rest[k] != '\n');
                assert(find_newline(rest) == -1) by {
                    if find_newline(rest) >= 0 {
                        assert(rest[find_newline(rest)] == '\n');
                    }
                }
                assert(rest =~= line@);
                assert(split_lines(rest) == seq![line@]);
            }
        }
        let row = match line_to_vec(line, y as i32, start, end) {
            Ok(row) => row,
            Err(e) => {
                assert(!valid_char(line@[choose|i: int|
                    0 <= i < line@.len() && !valid_char(line@[i])]));
                return Err(e);
            },
        };
        map.push(row);
        proof {
            lines_done = lines_done.push(line@);
            assert(grid_view(map@) =~= grid_view(map@.drop_last()).push(row@));
            assert(grid_matches(grid_view(map@), lines_done, start, end));
            assert forall|k: int|
                0 <= k < j as int implies valid_char(content@[k]) || content@[k] == '\n' by {
                if pos as int <= k {
                    assert(valid_char(line@[k - pos as int]));
                }
            }
        }
        if j == n {
            proof {
                assert(split_lines(content@) =~~= lines_done);
            }
            break ;
        }
        proof {
            assert(split_lines(content@) =~~= lines_done + split_lines(
                content@.skip(j + 1 as int),
            ));
        }
        pos = j + 1;
        y = y + 1;
    }
    Ok(map)
}

/// Two coordinates are 4-directionally adjacent: they differ by exactly one
/// step along exactly one axis.
pub open spec fn adjacent(a: (usize, usize), b: (usize, usize)) -> bool {
    ||| (a.0 == b.0 && (a.1 as int - b.1 as int == 1 || b.1 as int - a.1 as int == 1))
    ||| (a.1 == b.1 && (a.0 as int - b.0 as int == 1 || b.0 as int - a.0 as int == 1))
}

/// The coordinate addresses a cell of the grid.
pub open spec fn in_grid(g: Seq<Seq<Tile>>, c: (usize, usize)) -> bool {
    c.1 < g.len() && c.0 < g[c.1 as int].len()
}

/// The coordinate addresses a passable (open) cell of the grid.
pub open spec fn passable_at(g: Seq<Seq<Tile>>, c: (usize, usize)) -> bool {
    in_grid(g, c) && g[c.1 as int][c.0 as int].path
}

/// A well-formed grid: dimensions within [`COORD_LIMIT`] and every tile
/// stores the coordinates of its own cell.  Every grid the builder
/// produces is well-formed (see [`lemma_built_grid_wf`]).
pub open spec fn grid_wf(g: Seq<Seq<Tile>>) -> bool {
    &&& g.len() <= COORD_LIMIT as int + 1
    &&& forall|y: int| 0 <= y < g.len() ==> (#[trigger] g[y]).len() <= COORD_LIMIT as int
    &&& forall|y: int, x: int|
        0 <= y < g.len() && 0 <= x < g[y].len() ==> (#[trigger] g[y][x]).x == x && g[y][x].y == y
}

/// Splitting a text yields at least one line, at most one more line than
/// the text has characters, and no line longer than the text.
pub proof fn lemma_split_lines_bounds(s: Seq<char>)
    ensures
        1 <= split_lines(s).len() <= s.len() + 1,
        forall|i: int|
            0 <= i < split_lines(s).len() ==> (#[trigger] split_lines(s)[i]).len() <= s.len(),
    decreases s.len(),
{
    let f = find_newline(s);
    if !(f < 0 || f >= s.len()) {
        lemma_split_lines_bounds(s.skip(f + 1));
    }
}

/// A grid built from map text within the size limit is well-formed.
pub proof fn lemma_built_grid_wf(
    g: Seq<Seq<Tile>>,
    content: Seq<char>,
    start: (i32, i32),
    end: (i32, i32),
)
    requires
        grid_matches(g, split_lines(content), start, end),
        content.len() <= COORD_LIMIT,
    ensures
        grid_wf(g),
{
    lemma_split_lines_bounds(content);
    let lines = split_lines(content);
    assert forall|y: int, x: int|
        0 <= y < g.len() && 0 <= x < g[y].len() implies (#[trigger] g[y][x]).x == x && g[y][x].y
        == y by {
        assert(row_matches(g[y], lines[y], y, start, end));
        assert(g[y][x] == built_tile(x, y, lines[y][x], start, end));
    }
    assert forall|y: int| 0 <= y < g.len() implies (#[trigger] g[y]).len() <= COORD_LIMIT as int by {
        assert(row_matches(g[y], lines[y], y, start, end));
    }
}

/// Looks a tile up by a signed coordinate pair; `None` exactly when the
/// coordinate does not address a cell of the grid.
pub fn get_tile<'a>(map: &'a Vec<Vec<Tile>>, coord: (i32, i32)) -> (r: Option<&'a Tile>)
    ensures
        r is Some <==> (coord.0 >= 0 && coord.1 >= 0 && in_grid(
            grid_view(map@),
            (coord.0 as usize, coord.1 as usize),
        )),
        r matches Some(t) ==> *t == grid_view(map@)[coord.1 as int][coord.0 as int],
{
    if coord.0 < 0 || coord.1 < 0 {
        return None;
    }
    let x = coord.0 as usize;
    let y = coord.1 as usize;
    if y < map.len() {
        let row = &map[y];
        if x < row.len() {
            Some(&row[x])
        } else {
            None
        }
    } else {
        None
    }
}

/// Strict lexicographic order on the `(f, h)` score pair: the local step
/// prefers the lowest `f`, ties broken by the lowest `h`.
pub open spec fn lt_fh(a: Tile, b: Tile) -> bool {
    a.node.f < b.node.f || (a.node.f == b.node.f && a.node.h < b.node.h)
}

/// Strict lexicographic order on the `(h, f)` score pair: the fallback
/// step prefers the lowest `h`, ties broken by the lowest `f`.
pub open spec fn lt_hf(a: Tile, b: Tile) -> bool {
    a.node.h < b.node.h || (a.node.h == b.node.h && a.node.f < b.node.f)
}

/// The earliest tile of `s` with the minimal `(f, h)` score pair: a later
/// tile displaces an earlier one only when strictly smaller.
pub open spec fn first_min_fh(s: Seq<Tile>) -> Tile
    decreases s.len(),
{
    if s.len() <= 1 {
        s[0]
    } else {
        let m = first_min_fh(s.drop_last());
        if lt_fh(s.last(), m) {
            s.last()
        } else {
            m
        }
    }
}

/// The earliest tile of `s` with the minimal `(h, f)` score pair.
pub open spec fn first_min_hf(s: Seq<Tile>) -> Tile
    decreases s.len(),
{
    if s.len() <= 1 {
        s[0]
    } else {
        let m = first_min_hf(s.drop_last());
        if lt_hf(s.last(), m) {
            s.last()
        } else {
            m
        }
    }
}

/// The first `(f, h)` minimum is an element of the sequence and no element
/// scores strictly below it.
pub proof fn lemma_first_min_fh(s: Seq<Tile>)
    requires
        s.len() > 0,
    ensures
        s.contains(first_min_fh(s)),
        forall|i: int| 0 <= i < s.len() ==> !lt_fh(#[trigger] s[i], first_min_fh(s)),
    decreases s.len(),
{
    if s.len() > 1 {
        lemma_first_min_fh(s.drop_last());
        assert(s =~= s.drop_last().push(s.last()));
    }
}

/// The first `(h, f)` minimum is an element of the sequence and no element
/// scores strictly below it.
pub proof fn lemma_first_min_hf(s: Seq<Tile>)
    requires
        s.len() > 0,
    ensures
        s.contains(first_min_hf(s)),
        forall|i: int| 0 <= i < s.len() ==> !lt_hf(#[trigger] s[i], first_min_hf(s)),
    decreases s.len(),
{
    if s.len() > 1 {
        lemma_first_min_hf(s.drop_last());
        assert(s =~= s.drop_last().push(s.last()));
    }
}

/// Reports whether `c` occurs in the coordinate list.
fn contains_coord(v: &Vec<(usize, usize)>, c: (usize, usize)) -> (r: bool)
    ensures
        r == v@.contains(c),
{
    let mut i: usize = 0;
    while i < v.len()
        invariant
            i <= v@.len(),
            forall|k: int| 0 <= k < i as int ==> v@[k] != c,
        decreases v@.len() - i,
    {
        if v[i].0 == c.0 && v[i].1 == c.1 {
            assert(v@[i as int] == c);
            return true;
        }
        i = i + 1;
    }
    false
}

/// Reports whether `t` occurs in the tile list.
fn contains_tile(v: &Vec<Tile>, t: &Tile) -> (r: bool)
    ensures
        r == v@.contains(*t),
{
    let mut i: usize = 0;
    while i < v.len()
        invariant
            i <= v@.len(),
            forall|k: int| 0 <= k < i as int ==> v@[k] != *t,
        decreases v@.len() - i,
    {
        if v[i] == *t {
            return true;
        }
        i = i + 1;
    }
    false
}

/// Picks the local-step winner: the earliest candidate with the minimal
/// `(f, h)` score pair, or `None` when there is no candidate.
fn pick_min_fh(cands: &Vec<Tile>) -> (r: Option<Tile>)
    ensures
        r is Some <==> cands@.len() > 0,
        r matches Some(t) ==> t == first_min_fh(cands@),
{
    if cands.len() == 0 {
        return None;
    }
    let mut best = cands[0];
    let mut i: usize = 1;
    proof {
        assert(cands@.take(1) =~= seq![cands@[0]]);
    }
    while i < cands.len()
        invariant
            1 <= i <= cands@.len(),
            best == first_min_fh(cands@.take(i as int)),
        decreases cands@.len() - i,
    {
        let c = cands[i];
        proof {
            assert(cands@.take(i as int + 1).drop_last() =~= cands@.take(i as int));
            assert(cands@.take(i as int + 1).last() == cands@[i as int]);
        }
        if c.node.f < best.node.f || (c.node.f == best.node.f && c.node.h < best.node.h) {
            best = c;
        }
        i = i + 1;
    }
    proof {
        assert(cands@.take(cands@.len() as int) =~= cands@);
    }
    Some(best)
}

/// The candidate list contributed by the single neighbor cell `(nx, ny)`:
/// the cell's tile when the cell exists, is passable and is unvisited;
/// empty otherwise.
pub open spec fn dir_cand(
    g: Seq<Seq<Tile>>,
    visited: Seq<(usize, usize)>,
    nx: int,
    ny: int,
) -> Seq<Tile> {
    if 0 <= ny < g.len() && 0 <= nx < g[ny].len() && g[ny][nx].path && !visited.contains(
        ((nx as usize, ny as usize)),
    ) {
        seq![g[ny][nx]]
    } else {
        Seq::empty()
    }
}

/// The local candidates at `(x, y)`: the passable, unvisited neighbor
/// tiles, in the fixed examination order up, down, left, right.
pub open spec fn cand_seq(
    g: Seq<Seq<Tile>>,
    visited: Seq<(usize, usize)>,
    x: int,
    y: int,
) -> Seq<Tile> {
    dir_cand(g, visited, x, y - 1) + dir_cand(g, visited, x, y + 1) + dir_cand(g, visited, x - 1, y)
        + dir_cand(g, visited, x + 1, y)
}

/// Appends the elements of `cands` to `known` in order, skipping any that
/// are already present: the frontier grows without duplicates.
pub open spec fn dedup_append(known: Seq<Tile>, cands: Seq<Tile>) -> Seq<Tile>
    decreases cands.len(),
{
    if cands.len() == 0 {
        known
    } else {
        dedup_append(
            if known.contains(cands[0]) {
                known
            } else {
                known.push(cands[0])
            },
            cands.drop_first(),
        )
    }
}

/// Appending a concatenation deduplicates the two halves in turn.
pub proof fn lemma_dedup_append_concat(known: Seq<Tile>, a: Seq<Tile>, b: Seq<Tile>)
    ensures
        dedup_append(known, a + b) == dedup_append(dedup_append(known, a), b),
    decreases a.len(),
{
    if a.len() == 0 {
        assert(a + b =~= b);
    } else {
        let step = if known.contains(a[0]) {
            known
        } else {
            known.push(a[0])
        };
        assert((a + b)[0] == a[0]);
        assert((a + b).drop_first() =~= a.drop_first() + b);
        lemma_dedup_append_concat(step, a.drop_first(), b);
    }
}

/// A tile is in the deduplicated append exactly when it is in one of the
/// two inputs.
pub proof fn lemma_dedup_append_membership(known: Seq<Tile>, cands: Seq<Tile>)
    ensures
        forall|t: Tile|
            dedup_append(known, cands).contains(t) <==> known.contains(t) || cands.contains(t),
    decreases cands.len(),
{
    if cands.len() > 0 {
        let step = if known.contains(cands[0]) {
            known
        } else {
            known.push(cands[0])
        };
        lemma_dedup_append_membership(step, cands.drop_first());
        assert forall|t: Tile|
            dedup_append(known, cands).contains(t) <==> known.contains(t) || cands.contains(
                t,
            ) by {
            if step.contains(t) || cands.drop_first().contains(t) {
                if !known.contains(t) && !step.contains(t) {
                    let i = choose|i: int|
                        0 <= i < cands.drop_first().len() && cands.drop_first()[i] == t;
                    assert(cands[i + 1] == t);
                }
                if step.contains(t) && !known.contains(t) {
                    let i = choose|i: int| 0 <= i < step.len() && step[i] == t;
                    if i < known.len() {
                        assert(known[i] == t);
                    } else {
                        assert(t == cands[0]);
                    }
                }
            }
            if known.contains(t) {
                let i = choose|i: int| 0 <= i < known.len() && known[i] == t;
                assert(step[i] == t);
            }
            if cands.contains(t) {
                let i = choose|i: int| 0 <= i < cands.len() && cands[i] == t;
                if i == 0 {
                    if known.contains(cands[0]) {
                        assert(step.contains(t));
                    } else {
                        assert(step[known.len() as int] == t);
                    }
                } else {
                    assert(cands.drop_first()[i - 1] == t);
                }
            }
        }
    }
}

/// Examines the single neighbor cell `(nx, ny)`: when it exists, is
/// passable and is unvisited, records it as a candidate and adds it to the
/// frontier unless already known.
fn consider_neighbor(
    map: &Vec<Vec<Tile>>,
    visited: &Vec<(usize, usize)>,
    known_map: &mut Vec<Tile>,
    cands: &mut Vec<Tile>,
    nx: usize,
    ny: usize,
)
    ensures
        final(cands)@ == old(cands)@ + dir_cand(grid_view(map@), visited@, nx as int, ny as int),
        final(known_map)@ == dedup_append(
            old(known_map)@,
            dir_cand(grid_view(map@), visited@, nx as int, ny as int),
        ),
{
    let ghost d = dir_cand(grid_view(map@), visited@, nx as int, ny as int);
    if ny < map.len() {
        let row = &map[ny];
        if nx < row.len() {
            let t = row[nx];
            if t.get_path() && !contains_coord(visited, (nx, ny)) {
                cands.push(t);
                proof {
                    assert(d =~= seq![t]);
                    assert(cands@ =~= old(cands)@ + d);
                    assert(d.drop_first() =~= Seq::<Tile>::empty());
                }
                if !contains_tile(known_map, &t) {
                    known_map.push(t);
                }
                proof {
                    let k0 = old(known_map)@;
                    let step = if k0.contains(t) {
                        k0
                    } else {
                        k0.push(t)
                    };
                    assert(d[0] == t);
                    assert(dedup_append(k0, d) == dedup_append(step, d.drop_first()));
                    assert(dedup_append(step, Seq::<Tile>::empty()) == step);
                }
                return ;
            }
        }
    }
    proof {
        assert(d =~= Seq::<Tile>::empty());
        assert(cands@ =~= old(cands)@ + d);
    }
}

/// Selects the next tile of the local step: among the passable, unvisited
/// neighbors of `tile` (examined up, down, left, right), the earliest one
/// with the minimal `(f, h)` pair; every candidate seen is added to the
/// frontier `known_map` unless already present.  Returns `None` when no
/// neighbor is a candidate.
pub fn next_tile(
    map: &Vec<Vec<Tile>>,
    known_map: &mut Vec<Tile>,
    visited: &Vec<(usize, usize)>,
    tile: &Tile,
) -> (r: Option<Tile>)
    requires
        tile.x as int <= COORD_LIMIT as int,
        tile.y as int <= COORD_LIMIT as int,
    ensures
        final(known_map)@ == dedup_append(
            old(known_map)@,
            cand_seq(grid_view(map@), visited@, tile.x as int, tile.y as int),
        ),
        r is Some <==> cand_seq(grid_view(map@), visited@, tile.x as int, tile.y as int).len() > 0,
        r matches Some(t) ==> t == first_min_fh(
            cand_seq(grid_view(map@), visited@, tile.x as int, tile.y as int),
        ),
{
    let ghost g = grid_view(map@);
    let (x, y) = tile.get_coord();
    let ghost d_up = dir_cand(g, visited@, x as int, y as int - 1);
    let ghost d_down = dir_cand(g, visited@, x as int, y as int + 1);
    let ghost d_left = dir_cand(g, visited@, x as int - 1, y as int);
    let ghost d_right = dir_cand(g, visited@, x as int + 1, y as int);
    let mut cands: Vec<Tile> = Vec::new();
    if y > 0 {
        consider_neighbor(map, visited, known_map, &mut cands, x, y - 1);
    } else {
        proof {
            assert(d_up =~= Seq::<Tile>::empty());
        }
    }
    let ghost known_1 = known_map@;
    consider_neighbor(map, visited, known_map, &mut cands, x, y + 1);
    let ghost known_2 = known_map@;
    if x > 0 {
        consider_neighbor(map, visited, known_map, &mut cands, x - 1, y);
    } else {
        proof {
            assert(d_left =~= Seq::<Tile>::empty());
        }
    }
    let ghost known_3 = known_map@;
    consider_neighbor(map, visited, known_map, &mut cands, x + 1, y);
    proof {
        assert(cands@ =~= cand_seq(g, visited@, x as int, y as int));
        lemma_dedup_append_concat(old(known_map)@, d_up, d_down);
        lemma_dedup_append_concat(old(known_map)@, d_up + d_down, d_left);
        lemma_dedup_append_concat(old(known_map)@, d_up + d_down + d_left, d_right);
        assert(dedup_append(old(known_map)@, d_up) == known_1);
        assert(dedup_append(known_1, d_down) == known_2);
        assert(dedup_append(known_2, d_left) == known_3);
        assert(dedup_append(known_3, d_right) == known_map@);
    }
    pick_min_fh(&cands)
}

/// The frontier tiles not yet visited, in discovery order.
pub open spec fn unvisited_frontier(known: Seq<Tile>, visited: Seq<(usize, usize)>) -> Seq<Tile> {
    known.filter(|t: Tile| !visited.contains((t.x, t.y)))
}

/// Picks the fallback-step winner: the earliest unvisited frontier tile
/// with the minimal `(h, f)` score pair (note the tie-break reversed
/// relative to the local step), or `None` when the whole frontier has been
/// visited.
fn pick_fallback(known: &Vec<Tile>, visited: &Vec<(usize, usize)>) -> (r: Option<Tile>)
    ensures
        r is Some <==> unvisited_frontier(known@, visited@).len() > 0,
        r matches Some(t) ==> t == first_min_hf(unvisited_frontier(known@, visited@)),
{
    let mut best: Option<Tile> = None;
    let mut i: usize = 0;
    proof {
        assert(known@.take(0) =~= Seq::<Tile>::empty());
    }
    while i < known.len()
        invariant
            i <= known@.len(),
            best is Some <==> unvisited_frontier(known@.take(i as int), visited@).len() > 0,
            best matches Some(b) ==> b == first_min_hf(
                unvisited_frontier(known@.take(i as int), visited@),
            ),
        decreases known@.len() - i,
    {
        let t = known[i];
        let ghost pre = unvisited_frontier(known@.take(i as int), visited@);
        proof {
            broadcast use vstd::prelude::Seq::lemma_filter_push;

            assert(known@.take(i as int + 1) =~= known@.take(i as int).push(known@[i as int]));
            assert(known@.take(i as int).push(known@[i as int]).filter(
                |u: Tile| !visited@.contains((u.x, u.y)),
            ) == unvisited_frontier(known@.take(i as int + 1), visited@));
        }
        if !contains_coord(visited, (t.x, t.y)) {
            proof {
                assert(unvisited_frontier(known@.take(i as int + 1), visited@) == pre.push(t));
                if pre.len() > 0 {
                    assert(pre.push(t).drop_last() =~= pre);
                }
            }
            best = match best {
                None => Some(t),
                Some(b) => {
                    if t.node.h < b.node.h || (t.node.h == b.node.h && t.node.f < b.node.f) {
                        Some(t)
                    } else {
                        Some(b)
                    }
                },
            };
        }
        i = i + 1;
    }
    proof {
        assert(known@.take(known@.len() as int) =~= known@);
    }
    best
}

/// The tail-repair rule: pop coordinates off the end of the path until the
/// last one is 4-directionally adjacent to the next committed coordinate
/// `t`, or the path is empty.
pub open spec fn repair_spec(p: Seq<(usize, usize)>, t: (usize, usize)) -> Seq<(usize, usize)>
    decreases p.len(),
{
    if p.len() == 0 {
        p
    } else if adjacent(p.last(), t) {
        p
    } else {
        repair_spec(p.drop_last(), t)
    }
}

/// The repaired path is a prefix of the given one, and when nonempty its
/// last coordinate is adjacent to the repair target.
pub proof fn lemma_repair_spec_prefix(p: Seq<(usize, usize)>, t: (usize, usize))
    ensures
        repair_spec(p, t).len() <= p.len(),
        repair_spec(p, t) == p.take(repair_spec(p, t).len() as int),
        repair_spec(p, t).len() > 0 ==> adjacent(repair_spec(p, t).last(), t),
    decreases p.len(),
{
    if p.len() == 0 || adjacent(p.last(), t) {
        assert(repair_spec(p, t) == p);
        assert(p.take(p.len() as int) =~= p);
    } else {
        lemma_repair_spec_prefix(p.drop_last(), t);
        assert(p.drop_last().take(repair_spec(p, t).len() as int) =~= p.take(
            repair_spec(p, t).len() as int,
        ));
    }
}

/// Trims the recorded path so that appending the next committed coordinate
/// keeps every consecutive pair grid-adjacent.
pub fn repair_tail(path: &mut Vec<(usize, usize)>, target: (usize, usize))
    ensures
        final(path)@ == repair_spec(old(path)@, target),
{
    loop
        invariant
            repair_spec(path@, target) == repair_spec(old(path)@, target),
        ensures
            path@ == repair_spec(old(path)@, target),
        decreases path@.len(),
    {
        if path.len() == 0 {
            break ;
        }
        let last = path[path.len() - 1];
        if is_neighbor(last, target) {
            break ;
        }
        path.pop();
    }
}

/// A route of the grid: a nonempty coordinate sequence from `s` to `e`
/// whose consecutive pairs are 4-directionally adjacent and whose cells
/// after the first are passable.
pub open spec fn is_route(
    g: Seq<Seq<Tile>>,
    p: Seq<(usize, usize)>,
    s: (usize, usize),
    e: (usize, usize),
) -> bool {
    &&& p.len() >= 1
    &&& p[0] == s
    &&& p.last() == e
    &&& forall|i: int| 0 <= i < p.len() - 1 ==> adjacent(p[i], #[trigger] p[i + 1])
    &&& forall|i: int| 1 <= i < p.len() ==> passable_at(g, #[trigger] p[i])
}

/// `e` can be reached from `s` by walking passable cells.
pub open spec fn reachable(
    g: Seq<Seq<Tile>>,
    s: (usize, usize),
    e: (usize, usize),
) -> bool {
    exists|p: Seq<(usize, usize)>| is_route(g, p, s, e)
}

/// Every coordinate reaches itself (by the one-cell route).
pub proof fn lemma_reachable_refl(g: Seq<Seq<Tile>>, s: (usize, usize))
    ensures
        reachable(g, s, s),
{
    let p = seq![s];
    assert(is_route(g, p, s, s));
}

/// A route extends by one adjacent passable cell.
pub proof fn lemma_reachable_step(
    g: Seq<Seq<Tile>>,
    s: (usize, usize),
    v: (usize, usize),
    t: (usize, usize),
)
    requires
        reachable(g, s, v),
        adjacent(v, t),
        passable_at(g, t),
    ensures
        reachable(g, s, t),
{
    let p = choose|p: Seq<(usize, usize)>| is_route(g, p, s, v);
    let q = p.push(t);
    assert forall|i: int| 0 <= i < q.len() - 1 implies adjacent(q[i], #[trigger] q[i + 1]) by {
        if i < p.len() - 1 {
            assert(adjacent(p[i], p[i + 1]));
        }
    }
    assert(is_route(g, q, s, t));
}

/// If a set of coordinates holds `s` and is closed under stepping to an
/// adjacent passable cell, it holds the endpoint of every route from `s`.
pub proof fn lemma_closed_visited(
    g: Seq<Seq<Tile>>,
    visited: Seq<(usize, usize)>,
    p: Seq<(usize, usize)>,
    s: (usize, usize),
    e: (usize, usize),
)
    requires
        visited.contains(s),
        forall|v: (usize, usize), c: (usize, usize)|
            visited.contains(v) && adjacent(v, c) && passable_at(g, c) ==> visited.contains(c),
        is_route(g, p, s, e),
    ensures
        visited.contains(e),
    decreases p.len(),
{
    if p.len() == 1 {
        assert(e == s);
    } else {
        let q = p.drop_last();
        assert(is_route(g, q, s, p[p.len() - 2]));
        lemma_closed_visited(g, visited, q, s, p[p.len() - 2]);
        let k = p.len() - 2;
        assert(adjacent(p[k], p[k + 1]));
    }
}

/// A duplicate-free list of coordinates below `bound` in both components
/// has at most `bound * bound` entries.
pub proof fn lemma_bounded_coords_len(s: Seq<(usize, usize)>, bound: int)
    requires
        s.no_duplicates(),
        bound >= 0,
        forall|i: int|
            0 <= i < s.len() ==> (#[trigger] s[i]).0 < bound && s[i].1 < bound,
    ensures
        s.len() <= bound * bound,
{
    let f = |c: (usize, usize)| c.1 as int * bound + c.0 as int;
    let m = s.map_values(f);
    assert forall|i: int, j: int| 0 <= i < m.len() && 0 <= j < m.len() && i != j implies m[i]
        != m[j] by {
        let a = s[i];
        let b = s[j];
        assert(a != b);
        assert(a.0 < bound && a.1 < bound && b.0 < bound && b.1 < bound);
        assert(a.1 as int * bound + a.0 as int != b.1 as int * bound + b.0 as int) by (nonlinear_arith)
            requires
                a.0 < bound,
                a.1 < bound,
                b.0 < bound,
                b.1 < bound,
                a != b,
        ;
    }
    m.unique_seq_to_set();
    let range = vstd::set_lib::set_int_range(0, bound * bound);
    vstd::set_lib::lemma_int_range(0, bound * bound);
    assert forall|v: int| m.to_set().contains(v) implies range.contains(v) by {
        let i = choose|i: int| 0 <= i < m.len() && m[i] == v;
        let a = s[i];
        assert(0 <= a.1 as int * bound + a.0 as int && a.1 as int * bound + (a.0 as int) < bound
            * bound) by (nonlinear_arith)
            requires
                a.0 < bound,
                a.1 < bound,
        ;
    }
    vstd::set_lib::lemma_len_subset(m.to_set(), range);
}

/// The frontier holds a tile at coordinate `c`.
pub open spec fn frontier_has(known: Seq<Tile>, c: (usize, usize)) -> bool {
    exists|k: int| 0 <= k < known.len() && ((#[trigger] known[k]).x, known[k].y) == c
}

/// A frontier tile is a passable cell of the grid, reachable from the
/// start, and stores its own coordinates.
pub open spec fn frontier_tile_ok(g: Seq<Seq<Tile>>, sc: (usize, usize), t: Tile) -> bool {
    &&& in_grid(g, (t.x, t.y))
    &&& g[t.y as int][t.x as int] == t
    &&& t.path
    &&& reachable(g, sc, (t.x, t.y))
}

/// Every visited coordinate other than the current one has had all of its
/// passable neighbors either visited or recorded in the frontier.
pub open spec fn closure_except(
    g: Seq<Seq<Tile>>,
    visited: Seq<(usize, usize)>,
    known: Seq<Tile>,
    cur: (usize, usize),
) -> bool {
    forall|i: int, c: (usize, usize)|
        0 <= i < visited.len() && visited[i] != cur && adjacent(#[trigger] visited[i], c)
            && #[trigger] passable_at(g, c) ==> visited.contains(c) || frontier_has(known, c)
}

/// A coordinate adjacent to `(x, y)` is one of its four axis neighbors.
proof fn lemma_adjacent_dirs(x: usize, y: usize, c: (usize, usize))
    requires
        adjacent((x, y), c),
    ensures
        ({
            ||| (c.0 == x && y > 0 && c.1 as int == y as int - 1)
            ||| (c.0 == x && c.1 as int == y as int + 1)
            ||| (c.1 == y && x > 0 && c.0 as int == x as int - 1)
            ||| (c.1 == y && c.0 as int == x as int + 1)
        }),
{
}

/// A tile of one of the four direction segments is a candidate.
proof fn lemma_concat_contains4(a: Seq<Tile>, b: Seq<Tile>, c: Seq<Tile>, d: Seq<Tile>, t: Tile)
    requires
        a.contains(t) || b.contains(t) || c.contains(t) || d.contains(t),
    ensures
        (a + b + c + d).contains(t),
{
    let s = a + b + c + d;
    if a.contains(t) {
        let i = choose|i: int| 0 <= i < a.len() && a[i] == t;
        assert(s[i] == t);
    } else if b.contains(t) {
        let i = choose|i: int| 0 <= i < b.len() && b[i] == t;
        assert(s[a.len() + i] == t);
    } else if c.contains(t) {
        let i = choose|i: int| 0 <= i < c.len() && c[i] == t;
        assert(s[a.len() + b.len() + i] == t);
    } else {
        let i = choose|i: int| 0 <= i < d.len() && d[i] == t;
        assert(s[a.len() + b.len() + c.len() + i] == t);
    }
}

/// Every local candidate at `(x, y)` is a passable, unvisited grid tile
/// adjacent to `(x, y)` that stores its own coordinates.
proof fn lemma_cand_member(
    g: Seq<Seq<Tile>>,
    visited: Seq<(usize, usize)>,
    x: usize,
    y: usize,
    t: Tile,
)
    requires
        grid_wf(g),
        y as int <= COORD_LIMIT as int,
        cand_seq(g, visited, x as int, y as int).contains(t),
    ensures
        in_grid(g, (t.x, t.y)),
        g[t.y as int][t.x as int] == t,
        t.path,
        !visited.contains((t.x, t.y)),
        adjacent((x, y), (t.x, t.y)),
{
    let d_up = dir_cand(g, visited, x as int, y as int - 1);
    let d_down = dir_cand(g, visited, x as int, y as int + 1);
    let d_left = dir_cand(g, visited, x as int - 1, y as int);
    let d_right = dir_cand(g, visited, x as int + 1, y as int);
    let cs = cand_seq(g, visited, x as int, y as int);
    let i = choose|i: int| 0 <= i < cs.len() && cs[i] == t;
    if i < d_up.len() {
        assert(d_up[i] == t);
    } else if i < d_up.len() + d_down.len() {
        assert(d_down[i - d_up.len()] == t);
    } else if i < d_up.len() + d_down.len() + d_left.len() {
        assert(d_left[i - d_up.len() - d_down.len()] == t);
    } else {
        assert(d_right[i - d_up.len() - d_down.len() - d_left.len()] == t);
    }
}

/// After the local step has scanned `(x, y)`, every passable neighbor of
/// `(x, y)` is visited or recorded in the updated frontier.
proof fn lemma_cur_closed(
    g: Seq<Seq<Tile>>,
    visited: Seq<(usize, usize)>,
    old_known: Seq<Tile>,
    known: Seq<Tile>,
    x: usize,
    y: usize,
)
    requires
        grid_wf(g),
        known == dedup_append(old_known, cand_seq(g, visited, x as int, y as int)),
    ensures
        forall|c: (usize, usize)|
            adjacent((x, y), c) && #[trigger] passable_at(g, c) ==> visited.contains(c)
                || frontier_has(known, c),
        forall|t: Tile| old_known.contains(t) ==> known.contains(t),
        forall|t: Tile|
            known.contains(t) ==> old_known.contains(t) || cand_seq(
                g,
                visited,
                x as int,
                y as int,
            ).contains(t),
{
    let cs = cand_seq(g, visited, x as int, y as int);
    lemma_dedup_append_membership(old_known, cs);
    assert forall|c: (usize, usize)|
        adjacent((x, y), c) && #[trigger] passable_at(g, c) implies visited.contains(c)
        || frontier_has(known, c) by {
        if !visited.contains(c) {
            lemma_adjacent_dirs(x, y, c);
            let t = g[c.1 as int][c.0 as int];
            assert(t.x == c.0 && t.y == c.1);
            if c.0 == x && y > 0 && c.1 as int == y as int - 1 {
                assert(dir_cand(g, visited, x as int, y as int - 1) == seq![t]);
                assert(dir_cand(g, visited, x as int, y as int - 1)[0] == t);
                assert(dir_cand(g, visited, x as int, y as int - 1).contains(t));
            } else if c.0 == x && c.1 as int == y as int + 1 {
                assert(dir_cand(g, visited, x as int, y as int + 1) == seq![t]);
                assert(dir_cand(g, visited, x as int, y as int + 1)[0] == t);
                assert(dir_cand(g, visited, x as int, y as int + 1).contains(t));
            } else if c.1 == y && x > 0 && c.0 as int == x as int - 1 {
                assert(dir_cand(g, visited, x as int - 1, y as int) == seq![t]);
                assert(dir_cand(g, visited, x as int - 1, y as int)[0] == t);
                assert(dir_cand(g, visited, x as int - 1, y as int).contains(t));
            } else {
                assert(dir_cand(g, visited, x as int + 1, y as int) == seq![t]);
                assert(dir_cand(g, visited, x as int + 1, y as int)[0] == t);
                assert(dir_cand(g, visited, x as int + 1, y as int).contains(t));
            }
            lemma_concat_contains4(
                dir_cand(g, visited, x as int, y as int - 1),
                dir_cand(g, visited, x as int, y as int + 1),
                dir_cand(g, visited, x as int - 1, y as int),
                dir_cand(g, visited, x as int + 1, y as int),
                t,
            );
            assert(known.contains(t));
            let k = choose|k: int| 0 <= k < known.len() && known[k] == t;
            assert(((known[k]).x, known[k].y) == c);
        }
    }
}

/// Reports whether two coordinates are 4-directionally adjacent.
pub fn is_neighbor(tile1: (usize, usize), tile2: (usize, usize)) -> (r: bool)
    ensures
        r == adjacent(tile1, tile2),
{
    (tile1.0 == tile2.0 && ((tile1.1 > tile2.1 && tile1.1 - tile2.1 == 1) || (tile2.1 > tile1.1
        && tile2.1 - tile1.1 == 1))) || (tile1.1 == tile2.1 && ((tile1.0 > tile2.0 && tile1.0
        - tile2.0 == 1) || (tile2.0 > tile1.0 && tile2.0 - tile1.0 == 1)))
}

/// One state of the walk, advanced step by step: the current tile, the
/// frontier, the visited coordinates and the recorded path.  The result is
/// `None` when the fuel runs out (which [`search_path`] shows never
/// happens for the fuel it accounts), `Some(Ok(path))` on arrival and
/// `Some(Err(()))` on exhaustion of the frontier.
pub open spec fn search_rec(
    g: Seq<Seq<Tile>>,
    cur: Tile,
    known: Seq<Tile>,
    visited: Seq<(usize, usize)>,
    path: Seq<(usize, usize)>,
    ec: (usize, usize),
    fuel: nat,
) -> Option<Result<Seq<(usize, usize)>, ()>>
    decreases fuel,
{
    if (cur.x, cur.y) == ec {
        Some(Ok(path))
    } else if fuel == 0 {
        None
    } else {
        let cands = cand_seq(g, visited, cur.x as int, cur.y as int);
        let known2 = dedup_append(known, cands);
        if cands.len() > 0 {
            let t = first_min_fh(cands);
            search_rec(
                g,
                t,
                known2,
                visited.push((t.x, t.y)),
                repair_spec(path, (t.x, t.y)).push((t.x, t.y)),
                ec,
                (fuel - 1) as nat,
            )
        } else {
            let uf = unvisited_frontier(known2, visited);
            if uf.len() > 0 {
                let t = first_min_hf(uf);
                search_rec(
                    g,
                    t,
                    known2,
                    visited.push((t.x, t.y)),
                    repair_spec(path, (t.x, t.y)).push((t.x, t.y)),
                    ec,
                    (fuel - 1) as nat,
                )
            } else {
                Some(Err(()))
            }
        }
    }
}

/// The fuel the walk is accounted: one step per cell of the largest grid
/// accepted, plus one.
pub open spec fn search_fuel() -> nat {
    ((COORD_LIMIT as int + 1) * (COORD_LIMIT as int + 1) + 1) as nat
}

/// The whole walk as a function of the grid and the two coordinates alone:
/// repeated searches over the same inputs give the identical outcome.
pub open spec fn search_spec(
    g: Seq<Seq<Tile>>,
    sc: (usize, usize),
    ec: (usize, usize),
) -> Option<Result<Seq<(usize, usize)>, ()>> {
    search_rec(g, g[sc.1 as int][sc.0 as int], Seq::empty(), seq![sc], seq![sc], ec, search_fuel())
}

/// Walks a path from `start` to `end` on the grid.
///
/// The walk is greedy: from the current tile it commits the passable,
/// unvisited neighbor with the lowest `(f, h)` score pair; when no
/// neighbor qualifies it falls back to the unvisited frontier tile with
/// the lowest `(h, f)` pair; before each commit the recorded path tail is
/// repaired so consecutive coordinates stay grid-adjacent.
///
/// Returns `Ok` with the recorded path exactly when some passable route
/// from `start` to `end` exists, and `Err(())` when none does; the walk
/// always terminates.  The returned path ends at `end`, its consecutive
/// coordinates are 4-directionally adjacent, every coordinate on it other
/// than `start` is passable, and when it still holds `start` it begins
/// there (a fallback jump can trim the start away in degenerate cases).
pub fn search_path(map: &Vec<Vec<Tile>>, start: (i32, i32), end: (i32, i32)) -> (r: Result<
    Vec<(usize, usize)>,
    (),
>)
    requires
        grid_wf(grid_view(map@)),
        start.0 >= 0 && start.1 >= 0 && in_grid(
            grid_view(map@),
            (start.0 as usize, start.1 as usize),
        ),
        end.0 >= 0 && end.1 >= 0 && in_grid(grid_view(map@), (end.0 as usize, end.1 as usize)),
    ensures
        r is Ok <==> reachable(
            grid_view(map@),
            (start.0 as usize, start.1 as usize),
            (end.0 as usize, end.1 as usize),
        ),
        r matches Ok(p) ==> ({
            &&& p@.len() >= 1
            &&& p@.last() == (end.0 as usize, end.1 as usize)
            &&& forall|i: int| 0 <= i < p@.len() - 1 ==> adjacent(p@[i], #[trigger] p@[i + 1])
            &&& forall|i: int|
                0 <= i < p@.len() ==> p@[i] == (start.0 as usize, start.1 as usize) || passable_at(
                    grid_view(map@),
                    #[trigger] p@[i],
                )
            &&& p@.contains((start.0 as usize, start.1 as usize)) ==> p@[0] == (
                start.0 as usize,
                start.1 as usize,
            )
        }),
        r matches Ok(p) ==> search_spec(
            grid_view(map@),
            (start.0 as usize, start.1 as usize),
            (end.0 as usize, end.1 as usize),
        ) == Some(Ok::<Seq<(usize, usize)>, ()>(p@)),
        r is Err ==> search_spec(
            grid_view(map@),
            (start.0 as usize, start.1 as usize),
            (end.0 as usize, end.1 as usize),
        ) == Some(Err::<Seq<(usize, usize)>, ()>(())),
{
    let ghost g = grid_view(map@);
    let ghost sc = (start.0 as usize, start.1 as usize);
    let ghost ec = (end.0 as usize, end.1 as usize);
    let start_tile: Tile = *get_tile(map, start).unwrap();
    let end_tile: Tile = *get_tile(map, end).unwrap();
    let end_coord = end_tile.get_coord();
    let mut next: Tile = start_tile;
    let mut known_tiles: Vec<Tile> = Vec::new();
    let mut visited: Vec<(usize, usize)> = Vec::new();
    let mut path: Vec<(usize, usize)> = Vec::new();
    visited.push(next.get_coord());
    path.push(next.get_coord());
    proof {
        assert((next.x, next.y) == sc);
        assert(end_coord == ec);
        lemma_reachable_refl(g, sc);
        assert(visited@ =~= seq![sc]);
        assert(visited@[0] == sc);
        lemma_bounded_coords_len(visited@, COORD_LIMIT as int + 1);
        assert(path@ =~= seq![sc]);
        assert(known_tiles@ =~= Seq::<Tile>::empty());
        assert(g[sc.1 as int][sc.0 as int] == next);
        assert((search_fuel() + 1 - visited@.len()) as nat == search_fuel());
    }
    while next.x != end_coord.0 || next.y != end_coord.1
        invariant
            grid_wf(g),
            g == grid_view(map@),
            start.0 >= 0 && start.1 >= 0 && end.0 >= 0 && end.1 >= 0,
            sc == (start.0 as usize, start.1 as usize),
            ec == (end.0 as usize, end.1 as usize),
            in_grid(g, sc),
            in_grid(g, ec),
            end_coord == ec,
            in_grid(g, (next.x, next.y)),
            g[next.y as int][next.x as int] == next,
            visited@.contains((next.x, next.y)),
            visited@.contains(sc),
            visited@.no_duplicates(),
            forall|i: int| 0 <= i < visited@.len() ==> in_grid(g, #[trigger] visited@[i]),
            forall|i: int| 0 <= i < visited@.len() ==> reachable(g, sc, #[trigger] visited@[i]),
            visited@.contains(ec) ==> ec == (next.x, next.y),
            path@.len() >= 1,
            path@.last() == (next.x, next.y),
            forall|i: int| 0 <= i < path@.len() - 1 ==> adjacent(path@[i], #[trigger] path@[i + 1]),
            forall|i: int|
                0 <= i < path@.len() ==> path@[i] == sc || passable_at(g, #[trigger] path@[i]),
            forall|i: int| 1 <= i < path@.len() ==> #[trigger] path@[i] != sc,
            forall|i: int|
                0 <= i < known_tiles@.len() ==> frontier_tile_ok(g, sc, #[trigger] known_tiles@[i]),
            closure_except(g, visited@, known_tiles@, (next.x, next.y)),
            visited@.len() <= (COORD_LIMIT as int + 1) * (COORD_LIMIT as int + 1),
            search_rec(
                g,
                next,
                known_tiles@,
                visited@,
                path@,
                ec,
                (search_fuel() + 1 - visited@.len()) as nat,
            ) == search_spec(g, sc, ec),
        decreases (COORD_LIMIT as int + 1) * (COORD_LIMIT as int + 1) - visited@.len(),
    {
        let ghost old_known = known_tiles@;
        let ghost old_visited = visited@;
        let ghost cur = (next.x, next.y);
        let ghost prev = next;
        let ghost old_fuel = (search_fuel() + 1 - visited@.len()) as nat;
        let ghost cands = cand_seq(g, visited@, next.x as int, next.y as int);
        proof {
            assert(next.y as int <= COORD_LIMIT as int);
            assert(next.x as int <= COORD_LIMIT as int);
        }
        let picked = next_tile(map, &mut known_tiles, &visited, &next);
        proof {
            lemma_cur_closed(g, old_visited, old_known, known_tiles@, next.x, next.y);
            // the frontier invariant survives the update
            assert forall|i: int|
                0 <= i < known_tiles@.len() implies frontier_tile_ok(
                g,
                sc,
                #[trigger] known_tiles@[i],
            ) by {
                let t = known_tiles@[i];
                assert(known_tiles@.contains(t));
                if !old_known.contains(t) {
                    assert(cands.contains(t));
                    lemma_cand_member(g, old_visited, next.x, next.y, t);
                    let ci = choose|ci: int| 0 <= ci < old_visited.len() && old_visited[ci] == cur;
                    assert(reachable(g, sc, old_visited[ci]));
                    lemma_reachable_step(g, sc, cur, (t.x, t.y));
                } else {
                    let k = choose|k: int| 0 <= k < old_known.len() && old_known[k] == t;
                    assert(frontier_tile_ok(g, sc, old_known[k]));
                }
            }
        }
        let chosen: Tile = match picked {
            Some(t) => {
                proof {
                    lemma_first_min_fh(cands);
                    lemma_cand_member(g, old_visited, next.x, next.y, t);
                    let ci = choose|ci: int| 0 <= ci < old_visited.len() && old_visited[ci] == cur;
                    assert(reachable(g, sc, old_visited[ci]));
                    lemma_reachable_step(g, sc, cur, (t.x, t.y));
                }
                t
            },
            None => {
                match pick_fallback(&known_tiles, &visited) {
                    Some(t) => {
                        proof {
                            broadcast use vstd::prelude::Seq::lemma_filter_contains_rev;
                            broadcast use vstd::prelude::Seq::lemma_filter_pred;

                            let uf = unvisited_frontier(known_tiles@, visited@);
                            lemma_first_min_hf(uf);
                            let i = choose|i: int| 0 <= i < uf.len() && uf[i] == t;
                            assert(uf.contains(t));
                            assert(known_tiles@.contains(t));
                        }
                        t
                    },
                    None => {
                        proof {
                            broadcast use vstd::prelude::Seq::lemma_filter_contains;

                            // the whole frontier is visited
                            assert forall|k: int|
                                0 <= k < known_tiles@.len() implies visited@.contains(
                                ((#[trigger] known_tiles@[k]).x, known_tiles@[k].y),
                            ) by {
                                if !visited@.contains((known_tiles@[k].x, known_tiles@[k].y)) {
                                    assert(unvisited_frontier(known_tiles@, visited@).contains(
                                        known_tiles@[k],
                                    ));
                                }
                            }
                            // so the visited set is closed under passable steps
                            assert forall|v: (usize, usize), c: (usize, usize)|
                                visited@.contains(v) && adjacent(v, c) && passable_at(
                                    g,
                                    c,
                                ) implies visited@.contains(c) by {
                                let vi = choose|vi: int|
                                    0 <= vi < visited@.len() && visited@[vi] == v;
                                if v == cur {
                                    assert(visited@.contains(c) || frontier_has(known_tiles@, c));
                                } else {
                                    assert(visited@[vi] != cur);
                                    assert(adjacent(visited@[vi], c));
                                    assert(visited@.contains(c) || frontier_has(known_tiles@, c));
                                }
                                if frontier_has(known_tiles@, c) {
                                    let k = choose|k: int|
                                        0 <= k < known_tiles@.len() && ((
                                        #[trigger] known_tiles@[k]).x, known_tiles@[k].y) == c;
                                    assert(visited@.contains((known_tiles@[k].x, known_tiles@[k].y)));
                                }
                            }
                            // a route would have put the end in the visited set
                            if reachable(g, sc, ec) {
                                let p = choose|p: Seq<(usize, usize)>| is_route(g, p, sc, ec);
                                lemma_closed_visited(g, visited@, p, sc, ec);
                            }
                            // the walk's one outcome on these inputs is failure
                            assert(old_fuel > 0);
                            assert(search_rec(g, prev, old_known, old_visited, path@, ec, old_fuel)
                                == Some(Err::<Seq<(usize, usize)>, ()>(())));
                        }
                        return Err(());
                    },
                }
            },
        };
        // at this point `chosen` is a passable, unvisited grid tile
        // reachable from the start, and the frontier scan of the current
        // tile is complete
        proof {
            assert(in_grid(g, (chosen.x, chosen.y)));
            assert(g[chosen.y as int][chosen.x as int] == chosen);
            assert(chosen.path);
            assert(!visited@.contains((chosen.x, chosen.y)));
            assert(reachable(g, sc, (chosen.x, chosen.y)));
        }
        let tc = chosen.get_coord();
        let ghost old_path = path@;
        repair_tail(&mut path, tc);
        proof {
            lemma_repair_spec_prefix(old_path, tc);
        }
        visited.push(tc);
        path.push(tc);
        next = chosen;
        proof {
            let rp = repair_spec(old_path, tc);
            assert(path@ == rp.push(tc));
            assert(path@.last() == tc);
            // adjacency across the repaired seam
            assert forall|i: int|
                0 <= i < path@.len() - 1 implies adjacent(path@[i], #[trigger] path@[i + 1]) by {
                if i + 1 < rp.len() {
                    assert(rp[i] == old_path[i] && rp[i + 1] == old_path[i + 1]);
                    assert(adjacent(old_path[i], old_path[i + 1]));
                } else {
                    assert(path@[i] == rp.last() && path@[i + 1] == tc);
                }
            }
            assert forall|i: int|
                0 <= i < path@.len() implies path@[i] == sc || passable_at(
                g,
                #[trigger] path@[i],
            ) by {
                if i < rp.len() {
                    assert(rp[i] == old_path[i]);
                    assert(old_path[i] == sc || passable_at(g, old_path[i]));
                }
            }
            assert forall|i: int| 1 <= i < path@.len() implies #[trigger] path@[i] != sc by {
                if i < rp.len() {
                    assert(rp[i] == old_path[i]);
                }
            }
            // visited bookkeeping
            assert(visited@ == old_visited.push(tc));
            assert(visited@[visited@.len() - 1] == tc);
            assert forall|i: int, j: int|
                0 <= i < visited@.len() && 0 <= j < visited@.len() && i != j implies visited@[i]
                != visited@[j] by {
                if i < old_visited.len() && j < old_visited.len() {
                    assert(old_visited[i] != old_visited[j]);
                } else if i < old_visited.len() {
                    assert(old_visited[i] != tc) by {
                        if old_visited[i] == tc {
                            assert(old_visited.contains(tc));
                        }
                    }
                } else {
                    assert(old_visited[j] != tc) by {
                        if old_visited[j] == tc {
                            assert(old_visited.contains(tc));
                        }
                    }
                }
            }
            assert(visited@.no_duplicates());
            assert(visited@.contains(sc)) by {
                let i = choose|i: int| 0 <= i < old_visited.len() && old_visited[i] == sc;
                assert(visited@[i] == sc);
            }
            assert(visited@.contains((next.x, next.y)));
            // the end stays out of the visited set until it is current
            assert(visited@.contains(ec) ==> ec == (next.x, next.y)) by {
                if visited@.contains(ec) && tc != ec {
                    let i = choose|i: int| 0 <= i < visited@.len() && visited@[i] == ec;
                    assert(old_visited[i] == ec);
                    assert(old_visited.contains(ec));
                    assert(ec == cur);
                    assert(cur != ec);
                }
            }
            // closure for the new visited set and frontier
            assert(closure_except(g, visited@, known_tiles@, (next.x, next.y))) by {
                assert forall|i: int, c: (usize, usize)|
                    0 <= i < visited@.len() && visited@[i] != (next.x, next.y) && adjacent(
                        #[trigger] visited@[i],
                        c,
                    ) && #[trigger] passable_at(g, c) implies visited@.contains(c) || frontier_has(
                    known_tiles@,
                    c,
                ) by {
                    let v = visited@[i];
                    if i < old_visited.len() {
                        if v == cur {
                            assert(visited@.contains(c) || frontier_has(known_tiles@, c)) by {
                                assert(adjacent((next.x, next.y), c) || adjacent(cur, c));
                                if old_visited.contains(c) {
                                    let ci = choose|ci: int|
                                        0 <= ci < old_visited.len() && old_visited[ci] == c;
                                    assert(visited@[ci] == c);
                                }
                            }
                        } else {
                            assert(old_visited[i] != cur);
                            assert(old_visited.contains(c) || frontier_has(old_known, c));
                            if old_visited.contains(c) {
                                let ci = choose|ci: int|
                                    0 <= ci < old_visited.len() && old_visited[ci] == c;
                                assert(visited@[ci] == c);
                            } else {
                                let k = choose|k: int|
                                    0 <= k < old_known.len() && ((#[trigger] old_known[k]).x,
                                    old_known[k].y) == c;
                                assert(known_tiles@.contains(old_known[k]));
                                let k2 = choose|k2: int|
                                    0 <= k2 < known_tiles@.len() && known_tiles@[k2]
                                        == old_known[k];
                                assert(((known_tiles@[k2]).x, known_tiles@[k2].y) == c);
                            }
                        }
                    } else {
                        assert(v == tc);
                        assert(v == (next.x, next.y));
                    }
                }
            }
            lemma_bounded_coords_len(visited@, COORD_LIMIT as int + 1);
            // one unfolding of the walk's defining recursion
            assert(old_fuel > 0);
            assert(search_rec(g, prev, old_known, old_visited, old_path, ec, old_fuel)
                == search_rec(
                g,
                next,
                known_tiles@,
                visited@,
                path@,
                ec,
                (old_fuel - 1) as nat,
            ));
            assert((search_fuel() + 1 - visited@.len()) as nat == (old_fuel - 1) as nat);
        }
    }
    proof {
        assert((next.x, next.y) == ec);
        let i = choose|i: int| 0 <= i < visited@.len() && visited@[i] == ec;
        assert(reachable(g, sc, visited@[i]));
        assert(path@.contains(sc) ==> path@[0] == sc) by {
            if path@.contains(sc) {
                let i = choose|i: int| 0 <= i < path@.len() && path@[i] == sc;
                assert(i == 0);
            }
        }
        assert(search_rec(
            g,
            next,
            known_tiles@,
            visited@,
            path@,
            ec,
            (search_fuel() + 1 - visited@.len()) as nat,
        ) == Some(Ok::<Seq<(usize, usize)>, ()>(path@)));
    }
    Ok(path)
}

} // verus!
