//! The textual level format: parsing a level description and serializing a
//! level back to text, with the round-trip law tying the two together.
use vstd::prelude::*;
use crate::level::{Entity, Level, Tile};
use crate::moves::lemma_cell_index;

verus! {

/// Index of the first newline in `s`, or `s.len()` when none occurs.
pub open spec fn first_nl(s: Seq<char>) -> nat
    decreases s.len(),
{
    if s.len() == 0 {
        0
    } else if s[0] == '\n' {
        0
    } else {
        (1 + first_nl(s.drop_first())) as nat
    }
}

proof fn lemma_first_nl(s: Seq<char>)
    ensures
        first_nl(s) <= s.len(),
        forall|i: int| 0 <= i < first_nl(s) ==> s[i] != '\n',
        first_nl(s) < s.len() ==> s[first_nl(s) as int] == '\n',
    decreases s.len(),
{
    if s.len() > 0 && s[0] != '\n' {
        lemma_first_nl(s.drop_first());
        assert forall|i: int| 0 <= i < first_nl(s) implies s[i] != '\n' by {
            if i > 0 {
                assert(s.drop_first()[i - 1] == s[i]);
            }
        }
    }
}

/// The first-newline index is whatever cell a scan certifies: no newline
/// before `m`, and a newline (or the end) at `m`.
proof fn lemma_first_nl_is(s: Seq<char>, m: int)
    requires
        0 <= m <= s.len(),
        forall|i: int| 0 <= i < m ==> s[i] != '\n',
        m < s.len() ==> s[m] == '\n',
    ensures
        first_nl(s) == m,
    decreases m,
{
    if m == 0 {
    } else {
        assert(forall|i: int| 0 <= i < s.drop_first().len() ==> s.drop_first()[i] == s[i + 1]);
        lemma_first_nl_is(s.drop_first(), m - 1);
    }
}

/// The lines of a text: segments between newlines. The segment after the last
/// newline is always a line, so every text has at least one.
pub open spec fn lines_of(s: Seq<char>) -> Seq<Seq<char>>
    decreases s.len(),
{
    let k = first_nl(s);
    if k >= s.len() {
        seq![s]
    } else {
        seq![s.take(k as int)] + lines_of(s.skip(k as int + 1))
    }
}

/// Lines joined back with single newlines.
pub open spec fn join_lines(ls: Seq<Seq<char>>) -> Seq<char>
    decreases ls.len(),
{
    if ls.len() == 0 {
        Seq::<char>::empty()
    } else if ls.len() == 1 {
        ls[0]
    } else {
        ls[0] + seq!['\n'] + join_lines(ls.drop_first())
    }
}

/// Splitting a text into lines loses nothing: joining them with newlines
/// rebuilds the text exactly.
pub proof fn lemma_join_lines_of(s: Seq<char>)
    ensures
        lines_of(s).len() >= 1,
        join_lines(lines_of(s)) == s,
    decreases s.len(),
{
    lemma_first_nl(s);
    let k = first_nl(s) as int;
    if k >= s.len() {
    } else {
        lemma_join_lines_of(s.skip(k + 1));
        let ls = lines_of(s);
        assert(ls.drop_first() =~= lines_of(s.skip(k + 1)));
        assert(ls[0] == s.take(k));
        assert(s.take(k) + seq!['\n'] + s.skip(k + 1) =~= s);
    }
}

/// The length of uniformly wide lines joined with newlines.
proof fn lemma_join_uniform(rows: Seq<Seq<char>>, w: int)
    requires
        rows.len() >= 1,
        forall|j: int| 0 <= j < rows.len() ==> (#[trigger] rows[j]).len() == w,
    ensures
        join_lines(rows).len() == rows.len() * (w + 1) - 1,
    decreases rows.len(),
{
    if rows.len() == 1 {
    } else {
        assert(forall|j: int|
            0 <= j < rows.drop_first().len() ==> (#[trigger] rows.drop_first()[j]) == rows[j + 1]);
        lemma_join_uniform(rows.drop_first(), w);
        assert((rows.len() - 1) * (w + 1) + (w + 1) == rows.len() * (w + 1)) by (nonlinear_arith);
    }
}

/// Whether a character belongs to the level format's alphabet.
pub open spec fn char_recognized(c: char) -> bool {
    ||| c == '#'
    ||| c == ' '
    ||| c == '/'
    ||| c == 'p'
    ||| c == 'P'
    ||| c == 't'
    ||| c == 'T'
    ||| c == 'b'
    ||| c == 'B'
    ||| c == 'c'
    ||| c == 'C'
}

/// The terrain a recognized character places: walls and plain terrain by
/// punctuation, lowercase letters on snow, uppercase letters on ice.
pub open spec fn char_tile(c: char) -> Tile {
    if c == '#' {
        Tile::Wall
    } else if c == '/' || c == 'P' || c == 'T' || c == 'B' || c == 'C' {
        Tile::Ice
    } else {
        Tile::Snow
    }
}

/// The entity a recognized character places, if any.
pub open spec fn char_entity(c: char) -> Option<Entity> {
    if c == 'p' || c == 'P' {
        Some(Entity::Player)
    } else if c == 't' || c == 'T' {
        Some(Entity::Receptacle)
    } else if c == 'b' || c == 'B' {
        Some(Entity::Present)
    } else if c == 'c' || c == 'C' {
        Some(Entity::Crate)
    } else {
        None
    }
}

/// The character that renders a cell: entities that the format can spell are
/// written over their tile; anything else shows the bare tile.
pub open spec fn cell_char(t: Tile, e: Option<Entity>) -> char {
    match e {
        Some(Entity::Player) => if t is Ice {
            'P'
        } else {
            'p'
        },
        Some(Entity::Receptacle) => if t is Ice {
            'T'
        } else {
            't'
        },
        Some(Entity::Present) => if t is Ice {
            'B'
        } else {
            'b'
        },
        Some(Entity::Crate) => if t is Ice {
            'C'
        } else {
            'c'
        },
        _ => match t {
            Tile::Wall => '#',
            Tile::Snow => ' ',
            Tile::Ice => '/',
        },
    }
}

/// A well-formed level text: a title line, at least one data row, every data
/// row exactly as wide as the first, and every data character recognized.
/// `from_string` succeeds on exactly these texts.
pub open spec fn wf_text(s: Seq<char>) -> bool {
    let lines = lines_of(s);
    &&& lines.len() >= 2
    &&& forall|j: int| 1 <= j < lines.len() ==> (#[trigger] lines[j]).len() == lines[1].len()
    &&& forall|j: int, i: int|
        1 <= j < lines.len() && 0 <= i < lines[j].len() ==> char_recognized(
            #[trigger] lines[j][i],
        )
}

/// The row-major tile grid a sequence of data rows describes.
pub open spec fn row_tiles(row: Seq<char>) -> Seq<Tile> {
    Seq::new(row.len(), |i: int| char_tile(row[i]))
}

pub open spec fn tiles_of_rows(rows: Seq<Seq<char>>) -> Seq<Tile>
    decreases rows.len(),
{
    if rows.len() == 0 {
        Seq::<Tile>::empty()
    } else {
        row_tiles(rows[0]) + tiles_of_rows(rows.drop_first())
    }
}

/// The entities row `j` emits from column `i` on, in column order.
pub open spec fn row_ents_from(row: Seq<char>, j: int, i: int) -> Seq<(Entity, i32, i32)>
    decreases row.len() - i,
{
    if i < 0 || i >= row.len() {
        Seq::<(Entity, i32, i32)>::empty()
    } else {
        (match char_entity(row[i]) {
            Some(e) => seq![(e, i as i32, j as i32)],
            None => Seq::<(Entity, i32, i32)>::empty(),
        }) + row_ents_from(row, j, i + 1)
    }
}

/// The entities the data rows emit from row `j` on, row-major.
pub open spec fn ents_of_rows_from(rows: Seq<Seq<char>>, j: int) -> Seq<(Entity, i32, i32)>
    decreases rows.len() - j,
{
    if j < 0 || j >= rows.len() {
        Seq::<(Entity, i32, i32)>::empty()
    } else {
        row_ents_from(rows[j], j, 0) + ents_of_rows_from(rows, j + 1)
    }
}

/// The first entity record standing on `(x, y)`, of any kind: the one the
/// serializer draws.
pub open spec fn entity_kind_at(ents: Seq<(Entity, i32, i32)>, x: int, y: int) -> Option<Entity>
    decreases ents.len(),
{
    if ents.len() == 0 {
        None
    } else if ents[0].1 == x && ents[0].2 == y {
        Some(ents[0].0)
    } else {
        entity_kind_at(ents.drop_first(), x, y)
    }
}

/// The characters of the serialized data row `j` of a level.
pub open spec fn row_chars(l: Level, j: int) -> Seq<char> {
    Seq::new(
        l.w as nat,
        |i: int| cell_char(l.tile_at(i, j), entity_kind_at(l.entities@, i, j)),
    )
}

/// The serialized data rows of a level from row `j` on, each preceded by the
/// newline that separates it from what came before.
pub open spec fn rows_text(l: Level, j: int) -> Seq<char>
    decreases l.h - j,
{
    if j < 0 || j >= l.h {
        Seq::<char>::empty()
    } else {
        seq!['\n'] + row_chars(l, j) + rows_text(l, j + 1)
    }
}

/// The full serialized text of a level: the title line, then every data row.
pub open spec fn text_of_level(l: Level) -> Seq<char> {
    l.title@ + rows_text(l, 0)
}

proof fn lemma_tiles_len(rows: Seq<Seq<char>>, w: int)
    requires
        forall|j: int| 0 <= j < rows.len() ==> (#[trigger] rows[j]).len() == w,
    ensures
        tiles_of_rows(rows).len() == rows.len() * w,
    decreases rows.len(),
{
    if rows.len() > 0 {
        assert(forall|j: int|
            0 <= j < rows.drop_first().len() ==> (#[trigger] rows.drop_first()[j]) == rows[j + 1]);
        lemma_tiles_len(rows.drop_first(), w);
        assert(w + (rows.len() - 1) * w == rows.len() * w) by (nonlinear_arith);
    }
}

proof fn lemma_tiles_index(rows: Seq<Seq<char>>, w: int, j: int, i: int)
    requires
        forall|t: int| 0 <= t < rows.len() ==> (#[trigger] rows[t]).len() == w,
        0 <= j < rows.len(),
        0 <= i < w,
    ensures
        tiles_of_rows(rows).len() == rows.len() * w,
        tiles_of_rows(rows)[j * w + i] == char_tile(rows[j][i]),
    decreases j,
{
    lemma_tiles_len(rows, w);
    assert(forall|t: int|
        0 <= t < rows.drop_first().len() ==> (#[trigger] rows.drop_first()[t]) == rows[t + 1]);
    if j == 0 {
        assert(tiles_of_rows(rows) == row_tiles(rows[0]) + tiles_of_rows(rows.drop_first()));
        assert(j * w + i == i) by (nonlinear_arith)
            requires
                j == 0,
        ;
        assert(row_tiles(rows[0]).len() == w);
        assert((row_tiles(rows[0]) + tiles_of_rows(rows.drop_first()))[i] == row_tiles(
            rows[0],
        )[i]);
    } else {
        lemma_tiles_index(rows.drop_first(), w, j - 1, i);
        assert(j * w + i - w == (j - 1) * w + i) by (nonlinear_arith);
        assert(0 <= (j - 1) * w + i && (j - 1) * w + i + w < rows.len() * w) by (nonlinear_arith)
            requires
                0 <= j - 1 < rows.len() - 1,
                0 <= i < w,
        ;
        assert(tiles_of_rows(rows)[j * w + i] == tiles_of_rows(rows.drop_first())[(j - 1) * w
            + i]);
    }
}

proof fn lemma_ekat_concat(a: Seq<(Entity, i32, i32)>, b: Seq<(Entity, i32, i32)>, x: int, y: int)
    ensures
        entity_kind_at(a + b, x, y) == if entity_kind_at(a, x, y) is Some {
            entity_kind_at(a, x, y)
        } else {
            entity_kind_at(b, x, y)
        },
    decreases a.len(),
{
    if a.len() == 0 {
        assert(a + b =~= b);
    } else {
        assert((a + b)[0] == a[0]);
        assert((a + b).drop_first() =~= a.drop_first() + b);
        lemma_ekat_concat(a.drop_first(), b, x, y);
    }
}

proof fn lemma_ekat_none(ents: Seq<(Entity, i32, i32)>, x: int, y: int)
    requires
        forall|k: int| 0 <= k < ents.len() ==> !((#[trigger] ents[k]).1 == x && ents[k].2 == y),
    ensures
        entity_kind_at(ents, x, y) is None,
    decreases ents.len(),
{
    if ents.len() > 0 {
        assert(forall|k: int|
            0 <= k < ents.drop_first().len() ==> (#[trigger] ents.drop_first()[k]) == ents[k + 1]);
        lemma_ekat_none(ents.drop_first(), x, y);
    }
}

/// What a single row's emitted records look like, and what looking a cell up
/// in them yields.
proof fn lemma_row_ents(row: Seq<char>, j: int, i0: int)
    requires
        0 <= i0,
        0 <= j <= i32::MAX,
        row.len() <= i32::MAX,
    ensures
        forall|k: int|
            0 <= k < row_ents_from(row, j, i0).len() ==> {
                let rec = #[trigger] row_ents_from(row, j, i0)[k];
                &&& rec.2 == j
                &&& i0 <= rec.1 < row.len()
                &&& char_entity(row[rec.1 as int]) == Some(rec.0)
            },
        forall|x: int, y: int|
            !(y == j && i0 <= x < row.len() && char_entity(row[x]) is Some) ==> entity_kind_at(
                row_ents_from(row, j, i0),
                x,
                y,
            ) is None,
        forall|x: int|
            i0 <= x < row.len() && char_entity(row[x]) is Some ==> entity_kind_at(
                row_ents_from(row, j, i0),
                x,
                j,
            ) == char_entity(row[x]),
    decreases row.len() - i0,
{
    if i0 < row.len() {
        lemma_row_ents(row, j, i0 + 1);
        let whole = row_ents_from(row, j, i0);
        match char_entity(row[i0]) {
            Some(e) => {
                assert(whole[0] == (e, i0 as i32, j as i32));
                assert(whole.drop_first() =~= row_ents_from(row, j, i0 + 1));
                assert forall|k: int| 0 <= k < whole.len() implies {
                    let rec = #[trigger] whole[k];
                    &&& rec.2 == j
                    &&& i0 <= rec.1 < row.len()
                    &&& char_entity(row[rec.1 as int]) == Some(rec.0)
                } by {
                    if k > 0 {
                        assert(whole[k] == row_ents_from(row, j, i0 + 1)[k - 1]);
                    }
                }
                assert forall|x: int, y: int|
                    !(y == j && i0 <= x < row.len() && char_entity(row[x]) is Some)
                        implies entity_kind_at(whole, x, y) is None by {
                    assert(entity_kind_at(whole, x, y) == entity_kind_at(
                        row_ents_from(row, j, i0 + 1),
                        x,
                        y,
                    ));
                }
                assert forall|x: int|
                    i0 <= x < row.len() && char_entity(row[x]) is Some implies entity_kind_at(
                    whole,
                    x,
                    j,
                ) == char_entity(row[x]) by {
                    if x == i0 {
                        assert(whole[0].1 == x && whole[0].2 == j);
                        assert(entity_kind_at(whole, x, j) == Some(e));
                    } else {
                        assert(!(whole[0].1 == x && whole[0].2 == j));
                        assert(entity_kind_at(whole, x, j) == entity_kind_at(
                            row_ents_from(row, j, i0 + 1),
                            x,
                            j,
                        ));
                    }
                }
            },
            None => {
                assert(whole =~= row_ents_from(row, j, i0 + 1));
            },
        }
    }
}

/// What the whole grid's emitted records look like, and what looking a cell up
/// in them yields: exactly the character the cell holds.
proof fn lemma_rows_ents(rows: Seq<Seq<char>>, j0: int)
    requires
        0 <= j0,
        rows.len() <= i32::MAX,
        forall|t: int| 0 <= t < rows.len() ==> (#[trigger] rows[t]).len() <= i32::MAX,
    ensures
        forall|k: int|
            0 <= k < ents_of_rows_from(rows, j0).len() ==> {
                let rec = #[trigger] ents_of_rows_from(rows, j0)[k];
                &&& j0 <= rec.2 < rows.len()
                &&& 0 <= rec.1 < rows[rec.2 as int].len()
            },
        forall|x: int, y: int|
            j0 <= y < rows.len() && 0 <= x < rows[y].len() ==> entity_kind_at(
                ents_of_rows_from(rows, j0),
                x,
                y,
            ) == char_entity(#[trigger] rows[y][x]),
        forall|x: int, y: int|
            !(j0 <= y < rows.len() && 0 <= x < rows[y].len()) ==> entity_kind_at(
                ents_of_rows_from(rows, j0),
                x,
                y,
            ) is None,
    decreases rows.len() - j0,
{
    if j0 < rows.len() {
        lemma_rows_ents(rows, j0 + 1);
        lemma_row_ents(rows[j0], j0, 0);
        let head = row_ents_from(rows[j0], j0, 0);
        let rest = ents_of_rows_from(rows, j0 + 1);
        let whole = ents_of_rows_from(rows, j0);
        assert(whole == head + rest);
        assert forall|k: int| 0 <= k < whole.len() implies {
            let rec = #[trigger] whole[k];
            &&& j0 <= rec.2 < rows.len()
            &&& 0 <= rec.1 < rows[rec.2 as int].len()
        } by {
            if k < head.len() {
                assert(whole[k] == head[k]);
            } else {
                assert(whole[k] == rest[k - head.len()]);
            }
        }
        assert forall|x: int, y: int| j0 <= y < rows.len() && 0 <= x < rows[y].len()
            implies entity_kind_at(whole, x, y) == char_entity(#[trigger] rows[y][x]) by {
            lemma_ekat_concat(head, rest, x, y);
            if y == j0 {
                if char_entity(rows[j0][x]) is Some {
                } else {
                    lemma_ekat_none(head, x, y);
                }
            } else {
                lemma_ekat_none(head, x, y);
            }
        }
        assert forall|x: int, y: int| !(j0 <= y < rows.len() && 0 <= x < rows[y].len())
            implies entity_kind_at(whole, x, y) is None by {
            lemma_ekat_concat(head, rest, x, y);
            lemma_ekat_none(head, x, y);
        }
    }
}

/// Parse round trip, the serialization half: any level whose fields hold
/// exactly what a well-formed text describes serializes back to that text,
/// title line and rows alike.
pub proof fn lemma_parse_round_trip(s: Seq<char>, l: Level)
    requires
        wf_text(s),
        l.title@ == lines_of(s)[0],
        l.w == lines_of(s)[1].len(),
        l.h == lines_of(s).len() - 1,
        l.tiles@ == tiles_of_rows(lines_of(s).skip(1)),
        l.entities@ == ents_of_rows_from(lines_of(s).skip(1), 0),
    ensures
        text_of_level(l) == s,
{
    let lines = lines_of(s);
    let rows = lines.skip(1);
    let w = l.w as int;
    assert(forall|t: int| 0 <= t < rows.len() ==> (#[trigger] rows[t]).len() == w);
    lemma_rows_ents(rows, 0);
    assert forall|j: int| 0 <= j < l.h implies row_chars(l, j) == rows[j] by {
        assert forall|i: int| 0 <= i < w implies row_chars(l, j)[i] == rows[j][i] by {
            lemma_tiles_index(rows, w, j, i);
            assert(l.tile_at(i, j) == char_tile(rows[j][i]));
            assert(entity_kind_at(l.entities@, i, j) == char_entity(rows[j][i]));
            assert(char_recognized(rows[j][i]));
        }
        assert(row_chars(l, j) =~= rows[j]);
    }
    lemma_rows_text_join(l, rows, 0);
    lemma_join_lines_of(s);
    assert(lines.drop_first() =~= rows);
    assert(rows.skip(0) =~= rows);
    assert(join_lines(lines) == lines[0] + seq!['\n'] + join_lines(rows));
    assert(rows_text(l, 0) == seq!['\n'] + join_lines(rows));
    assert(text_of_level(l) =~= s);
}

proof fn lemma_rows_text_join(l: Level, rows: Seq<Seq<char>>, j: int)
    requires
        0 <= j < l.h,
        l.h == rows.len(),
        forall|t: int| j <= t < l.h ==> row_chars(l, t) == rows[t],
    ensures
        rows_text(l, j) == seq!['\n'] + join_lines(rows.skip(j)),
    decreases l.h - j,
{
    if j == l.h - 1 {
        assert(rows.skip(j) =~= seq![rows[j]]);
        assert(rows_text(l, j + 1) =~= Seq::<char>::empty());
        assert(rows_text(l, j) =~= seq!['\n'] + rows[j]);
        assert(join_lines(seq![rows[j]]) == rows[j]);
    } else {
        lemma_rows_text_join(l, rows, j + 1);
        assert(rows.skip(j).drop_first() =~= rows.skip(j + 1));
        assert(rows.skip(j)[0] == rows[j]);
        assert(rows.skip(j).len() >= 2);
        assert(join_lines(rows.skip(j)) == rows[j] + seq!['\n'] + join_lines(rows.skip(j + 1)));
        assert(rows_text(l, j) =~= seq!['\n'] + join_lines(rows.skip(j)));
    }
}

/// Relies on String::push: appends exactly the given character.
#[verifier::external_body]
pub(crate) fn push_char(s: &mut String, c: char)
    ensures
        final(s)@ == old(s)@.push(c),
{
    s.push(c);
}

impl Level {
    /// Parse a textual level description: line 0 is the title, the remaining
    /// lines are equal-width rows of recognized cell characters. Returns
    /// nothing exactly when the text is malformed: fewer than two lines, a row
    /// whose width differs from the first row's, or an unrecognized character.
    #[verifier::loop_isolation(false)]
    #[verifier::rlimit(100)]
    pub fn from_string(s: &str) -> (r: Option<Level>)
        requires
            s@.len() <= 0x7FFF_FFFF,
        ensures
            r is Some <==> wf_text(s@),
            r is Some ==> {
                let lines = lines_of(s@);
                &&& r.unwrap().title@ == lines[0]
                &&& r.unwrap().w == lines[1].len()
                &&& r.unwrap().h == lines.len() - 1
                &&& r.unwrap().tiles@ == tiles_of_rows(lines.skip(1))
                &&& r.unwrap().entities@ == ents_of_rows_from(lines.skip(1), 0)
                &&& r.unwrap().wf()
                &&& text_of_level(r.unwrap()) == s@
            },
    {
        let n = s.unicode_len();
        let mut cs: Vec<char> = Vec::new();
        let mut i: usize = 0;
        while i < n
            invariant
                i <= n,
                n == s@.len(),
                cs@ == s@.take(i as int),
            decreases n - i,
        {
            cs.push(s.get_char(i));
            proof {
                assert(s@.take(i as int).push(s@[i as int]) =~= s@.take(i as int + 1));
            }
            i += 1;
        }
        proof {
            assert(cs@ =~= s@);
        }
        let mut lines: Vec<Vec<char>> = Vec::new();
        let mut start: usize = 0;
        let mut done = false;
        while !done
            invariant
                start <= n,
                n == s@.len(),
                cs@ == s@,
                !done ==> lines@.map_values(|v: Vec<char>| v@) + lines_of(s@.skip(start as int))
                    == lines_of(s@),
                done ==> lines@.map_values(|v: Vec<char>| v@) == lines_of(s@),
            decreases n - start + (if done { 0int } else { 1int }),
        {
            let mut j: usize = start;
            while j < n && cs[j] != '\n'
                invariant
                    start <= j <= n,
                    forall|t: int| start <= t < j ==> s@[t] != '\n',
                decreases n - j,
            {
                j += 1;
            }
            let mut seg: Vec<char> = Vec::new();
            let mut t: usize = start;
            while t < j
                invariant
                    start <= t <= j <= n,
                    seg@ == s@.subrange(start as int, t as int),
                decreases j - t,
            {
                seg.push(cs[t]);
                proof {
                    assert(s@.subrange(start as int, t as int).push(s@[t as int]) =~= s@.subrange(
                        start as int,
                        t as int + 1,
                    ));
                }
                t += 1;
            }
            let ghost tail = s@.skip(start as int);
            proof {
                assert(forall|u: int| 0 <= u < tail.len() ==> tail[u] == s@[start + u]);
                lemma_first_nl_is(tail, j - start);
            }
            let ghost pre = lines@.map_values(|v: Vec<char>| v@);
            lines.push(seg);
            proof {
                assert(lines@.map_values(|v: Vec<char>| v@) =~= pre.push(seg@));
            }
            if j < n {
                proof {
                    assert(tail.take(j - start) =~= s@.subrange(start as int, j as int));
                    assert(tail.skip(j - start + 1) =~= s@.skip(j as int + 1));
                    assert(lines_of(tail) == seq![seg@] + lines_of(s@.skip(j as int + 1)));
                    assert(pre.push(seg@) + lines_of(s@.skip(j as int + 1)) =~= pre + lines_of(
                        tail,
                    ));
                }
                start = j + 1;
            } else {
                proof {
                    assert(tail =~= s@.subrange(start as int, n as int));
                    assert(lines_of(tail) == seq![tail]);
                    assert(pre.push(seg@) =~= pre + lines_of(tail));
                }
                done = true;
            }
        }
        let ghost all_lines = lines_of(s@);
        proof {
            assert(all_lines.len() == lines@.len());
            assert(forall|t: int|
                0 <= t < lines@.len() ==> (#[trigger] lines@[t])@ == all_lines[t]);
        }
        if lines.len() < 2 {
            return None;
        }
        let w = lines[1].len();
        let mut j: usize = 1;
        while j < lines.len()
            invariant
                1 <= j <= lines@.len(),
                forall|t: int| 1 <= t < j ==> all_lines[t].len() == w,
            decreases lines@.len() - j,
        {
            if lines[j].len() != w {
                return None;
            }
            j += 1;
        }
        let h = lines.len() - 1;
        let ghost rows = all_lines.skip(1);
        proof {
            assert(rows.len() == h);
            assert(forall|t: int| 0 <= t < rows.len() ==> rows[t] == all_lines[t + 1]);
            lemma_join_lines_of(s@);
            lemma_join_uniform(rows, w as int);
            assert(all_lines.drop_first() =~= rows);
            assert(join_lines(all_lines) == all_lines[0] + seq!['\n'] + join_lines(rows));
            assert(s@.len() == all_lines[0].len() + 1 + (h * (w as int + 1) - 1));
            assert(h * (w as int + 1) == h * (w as int) + h && h * (w as int) >= w as int && h * (
            w as int) >= 0) by (nonlinear_arith)
                requires
                    h >= 1,
                    w >= 0,
            ;
            assert(w <= 0x7FFF_FFFF && h <= 0x7FFF_FFFF && h * (w as int) <= 0x7FFF_FFFF);
        }
        let mut tiles: Vec<Tile> = Vec::new();
        let mut entities: Vec<(Entity, i32, i32)> = Vec::new();
        proof {
            assert(rows.skip(0) =~= rows);
            assert(Seq::<Tile>::empty() + tiles_of_rows(rows) =~= tiles_of_rows(rows));
            assert(Seq::<(Entity, i32, i32)>::empty() + ents_of_rows_from(rows, 0)
                =~= ents_of_rows_from(rows, 0));
        }
        let mut j: usize = 0;
        while j < h
            invariant
                j <= h,
                h == rows.len(),
                h + 1 == all_lines.len(),
                h == lines@.len() - 1,
                w <= 0x7FFF_FFFF,
                h <= 0x7FFF_FFFF,
                forall|t: int| 0 <= t < lines@.len() ==> (#[trigger] lines@[t])@ == all_lines[t],
                forall|t: int| 0 <= t < rows.len() ==> rows[t] == all_lines[t + 1],
                forall|t: int| 0 <= t < rows.len() ==> (#[trigger] rows[t]).len() == w,
                tiles@.len() == j * w,
                tiles_of_rows(rows) == tiles@ + tiles_of_rows(rows.skip(j as int)),
                ents_of_rows_from(rows, 0) == entities@ + ents_of_rows_from(rows, j as int),
                forall|t: int, u: int|
                    0 <= t < j && 0 <= u < w ==> char_recognized(#[trigger] rows[t][u]),
                forall|k: int|
                    0 <= k < entities@.len() ==> 0 <= (#[trigger] entities@[k]).1 < w
                        && 0 <= entities@[k].2 < h,
            decreases h - j,
        {
            let row = &lines[j + 1];
            let ghost tiles_pre = tiles@;
            let ghost ents_pre = entities@;
            let mut i: usize = 0;
            while i < w
                invariant
                    i <= w,
                    j < h,
                    row@ == rows[j as int],
                    row@.len() == w,
                    w <= 0x7FFF_FFFF,
                    h <= 0x7FFF_FFFF,
                    tiles@ == tiles_pre + row_tiles(row@).take(i as int),
                    ents_pre.len() <= entities@.len(),
                    ents_pre == entities@.take(ents_pre.len() as int),
                    row_ents_from(row@, j as int, 0) == entities@.skip(ents_pre.len() as int)
                        + row_ents_from(row@, j as int, i as int),
                    forall|u: int| 0 <= u < i ==> char_recognized(#[trigger] row@[u]),
                    forall|k: int|
                        0 <= k < entities@.len() ==> 0 <= (#[trigger] entities@[k]).1 < w
                            && 0 <= entities@[k].2 < h,
                decreases w - i,
            {
                let c = row[i];
                let ghost tiles_before = tiles@;
                let ghost ents_before = entities@;
                if c == '#' {
                    tiles.push(Tile::Wall);
                } else if c == ' ' {
                    tiles.push(Tile::Snow);
                } else if c == '/' {
                    tiles.push(Tile::Ice);
                } else if c == 'p' {
                    tiles.push(Tile::Snow);
                    entities.push((Entity::Player, i as i32, j as i32));
                } else if c == 'P' {
                    tiles.push(Tile::Ice);
                    entities.push((Entity::Player, i as i32, j as i32));
                } else if c == 't' {
                    tiles.push(Tile::Snow);
                    entities.push((Entity::Receptacle, i as i32, j as i32));
                } else if c == 'T' {
                    tiles.push(Tile::Ice);
                    entities.push((Entity::Receptacle, i as i32, j as i32));
                } else if c == 'b' {
                    tiles.push(Tile::Snow);
                    entities.push((Entity::Present, i as i32, j as i32));
                } else if c == 'B' {
                    tiles.push(Tile::Ice);
                    entities.push((Entity::Present, i as i32, j as i32));
                } else if c == 'c' {
                    tiles.push(Tile::Snow);
                    entities.push((Entity::Crate, i as i32, j as i32));
                } else if c == 'C' {
                    tiles.push(Tile::Ice);
                    entities.push((Entity::Crate, i as i32, j as i32));
                } else {
                    proof {
                        assert(all_lines[j as int + 1][i as int] == c);
                        assert(!wf_text(s@));
                    }
                    return None;
                }
                proof {
                    assert(row_tiles(row@).take(i as int).push(char_tile(c)) =~= row_tiles(
                        row@,
                    ).take(i as int + 1));
                    assert(tiles@ =~= tiles_pre + row_tiles(row@).take(i as int + 1));
                    let delta = ents_before.skip(ents_pre.len() as int);
                    match char_entity(c) {
                        Some(e) => {
                            let rec = (e, i as i32, j as i32);
                            assert(entities@ == ents_before.push(rec));
                            assert(entities@.skip(ents_pre.len() as int) =~= delta.push(rec));
                            assert(row_ents_from(row@, j as int, i as int) == seq![rec]
                                + row_ents_from(row@, j as int, i as int + 1));
                            assert(delta.push(rec) + row_ents_from(row@, j as int, i as int + 1)
                                =~= delta + row_ents_from(row@, j as int, i as int));
                            assert(ents_pre =~= entities@.take(ents_pre.len() as int));
                        },
                        None => {
                            assert(row_ents_from(row@, j as int, i as int) =~= row_ents_from(
                                row@,
                                j as int,
                                i as int + 1,
                            ));
                        },
                    }
                }
                i += 1;
            }
            proof {
                assert(row_tiles(row@).take(w as int) =~= row_tiles(row@));
                assert(rows.skip(j as int)[0] == rows[j as int]);
                assert(rows.skip(j as int).drop_first() =~= rows.skip(j as int + 1));
                assert(tiles_of_rows(rows.skip(j as int)) == row_tiles(rows[j as int])
                    + tiles_of_rows(rows.skip(j as int + 1)));
                assert(tiles@ + tiles_of_rows(rows.skip(j as int + 1)) =~= tiles_pre + (row_tiles(
                    rows[j as int],
                ) + tiles_of_rows(rows.skip(j as int + 1))));
                assert(row_ents_from(row@, j as int, w as int) =~= Seq::<(
                    Entity,
                    i32,
                    i32,
                )>::empty());
                assert(row_ents_from(row@, j as int, 0) =~= entities@.skip(
                    ents_pre.len() as int,
                ));
                assert(ents_of_rows_from(rows, j as int) == row_ents_from(rows[j as int], j as int, 0)
                    + ents_of_rows_from(rows, j as int + 1));
                assert(entities@ + ents_of_rows_from(rows, j as int + 1) =~= ents_pre + (
                row_ents_from(rows[j as int], j as int, 0) + ents_of_rows_from(
                    rows,
                    j as int + 1,
                )));
                assert(j * w + w == (j + 1) * w) by (nonlinear_arith);
            }
            j += 1;
        }
        proof {
            assert(rows.skip(h as int) =~= Seq::<Seq<char>>::empty());
            assert(tiles_of_rows(Seq::<Seq<char>>::empty()) =~= Seq::<Tile>::empty());
            assert(tiles@ =~= tiles_of_rows(rows));
            assert(ents_of_rows_from(rows, h as int) =~= Seq::<(Entity, i32, i32)>::empty());
            assert(entities@ =~= ents_of_rows_from(rows, 0));
        }
        let mut title = String::new();
        let trow = &lines[0];
        let mut t: usize = 0;
        while t < trow.len()
            invariant
                t <= trow@.len(),
                title@ == trow@.take(t as int),
            decreases trow@.len() - t,
        {
            push_char(&mut title, trow[t]);
            proof {
                assert(trow@.take(t as int).push(trow@[t as int]) =~= trow@.take(t as int + 1));
            }
            t += 1;
        }
        proof {
            assert(title@ =~= all_lines[0]);
        }
        let level = Level { title, w: w as i32, h: h as i32, tiles, entities };
        proof {
            assert(level.w as int == w as int && level.h as int == h as int);
            assert(level.tiles@.len() == (h as int) * (w as int));
            assert((w as int) * (h as int) == (h as int) * (w as int)) by (nonlinear_arith);
            assert(level.wf());
            assert(wf_text(s@)) by {
                assert forall|jj: int, ii: int|
                    1 <= jj < all_lines.len() && 0 <= ii < all_lines[jj].len()
                        implies char_recognized(#[trigger] all_lines[jj][ii]) by {
                    assert(rows[jj - 1] == all_lines[jj]);
                }
            }
            lemma_parse_round_trip(s@, level);
        }
        Some(level)
    }

    fn cell_char_exec(&self, x: i32, y: i32) -> (c: char)
        requires
            self.wf(),
            self.in_bounds(x as int, y as int),
        ensures
            c == cell_char(
                self.tile_at(x as int, y as int),
                entity_kind_at(self.entities@, x as int, y as int),
            ),
    {
        proof {
            lemma_cell_index(*self, x as int, y as int);
        }
        let t = self.tiles[(self.w * y + x) as usize];
        proof {
            assert(self.entities@.skip(0) =~= self.entities@);
        }
        let mut k: usize = 0;
        #[verifier::loop_isolation(false)]
        while k < self.entities.len()
            invariant
                k <= self.entities@.len(),
                entity_kind_at(self.entities@, x as int, y as int) == entity_kind_at(
                    self.entities@.skip(k as int),
                    x as int,
                    y as int,
                ),
            decreases self.entities@.len() - k,
        {
            let e = &self.entities[k];
            proof {
                assert(self.entities@.skip(k as int)[0] == self.entities@[k as int]);
                assert(self.entities@.skip(k as int).drop_first() =~= self.entities@.skip(
                    k as int + 1,
                ));
            }
            if e.1 == x && e.2 == y {
                return match &e.0 {
                    Entity::Player => if t == Tile::Ice {
                        'P'
                    } else {
                        'p'
                    },
                    Entity::Receptacle => if t == Tile::Ice {
                        'T'
                    } else {
                        't'
                    },
                    Entity::Present => if t == Tile::Ice {
                        'B'
                    } else {
                        'b'
                    },
                    Entity::Crate => if t == Tile::Ice {
                        'C'
                    } else {
                        'c'
                    },
                    _ => match t {
                        Tile::Wall => '#',
                        Tile::Snow => ' ',
                        Tile::Ice => '/',
                    },
                };
            }
            k += 1;
        }
        proof {
            assert(self.entities@.skip(self.entities@.len() as int) =~= Seq::<(
                Entity,
                i32,
                i32,
            )>::empty());
        }
        match t {
            Tile::Wall => '#',
            Tile::Snow => ' ',
            Tile::Ice => '/',
        }
    }

    /// Serialize the level back to its textual form: the title line, then one
    /// character per cell, row by row. On anything `from_string` produced this
    /// reproduces the original text exactly.
    #[verifier::loop_isolation(false)]
    pub fn to_text(&self) -> (r: String)
        requires
            self.wf(),
        ensures
            r@ == text_of_level(*self),
    {
        let mut out = self.title.clone();
        let mut j: i32 = 0;
        while j < self.h
            invariant
                0 <= j <= self.h,
                text_of_level(*self) == out@ + rows_text(*self, j as int),
            decreases self.h - j,
        {
            let ghost out_at_row = out@;
            let ghost row_target = row_chars(*self, j as int);
            push_char(&mut out, '\n');
            let mut i: i32 = 0;
            while i < self.w
                invariant
                    0 <= i <= self.w,
                    0 <= j < self.h,
                    out@ == out_at_row.push('\n') + row_chars(*self, j as int).take(i as int),
                decreases self.w - i,
            {
                let c = self.cell_char_exec(i, j);
                push_char(&mut out, c);
                proof {
                    assert(row_target[i as int] == c);
                    assert(row_target.take(i as int).push(c) =~= row_target.take(i as int + 1));
                    assert((out_at_row.push('\n') + row_target.take(i as int)).push(c) =~= (
                    out_at_row.push('\n') + row_target.take(i as int + 1)));
                }
                i += 1;
            }
            proof {
                assert(row_target.take(self.w as int) =~= row_target);
                assert(rows_text(*self, j as int) == seq!['\n'] + row_target + rows_text(
                    *self,
                    j as int + 1,
                ));
                assert(out_at_row + rows_text(*self, j as int) =~= (out_at_row.push('\n')
                    + row_target) + rows_text(*self, j as int + 1));
                assert(out@ =~= out_at_row.push('\n') + row_target);
            }
            j += 1;
        }
        proof {
            assert(rows_text(*self, self.h as int) =~= Seq::<char>::empty());
            assert(out@ =~= text_of_level(*self));
        }
        out
    }
}

} // verus!
