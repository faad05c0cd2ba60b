//! Lines of a Wavefront OBJ mesh file: `v x y z` adds a vertex, `f a b c`
//! adds a triangle over three earlier vertices (counted from 1); every
//! other line is ignored.
use vstd::prelude::*;

verus! {

/// What a line of the file describes.
#[derive(Clone, PartialEq, Eq, Debug)]
pub enum ObjLine {
    /// A vertex; the three coordinates as written.
    Vertex(String, String, String),
    /// A triangle over the vertices with these indices, counted from 0.
    Face(usize, usize, usize),
    /// Anything else.
    Skip,
}

/// Why a face line cannot be read.
#[derive(Clone, Copy, PartialEq, Eq, Debug)]
pub enum ObjError {
    /// A vertex index is not a decimal number that fits a `usize`.
    BadIndex,
    /// A vertex index is 0 or beyond the vertices read so far.
    IndexOutOfRange,
}

/// The whitespace-separated pieces of a line, as `str::split_whitespace` cuts them.
pub uninterp spec fn whitespace_split(line: Seq<char>) -> Seq<Seq<char>>;

/// Calls `str::split_whitespace` and copies each piece into a `String`.
/// The pieces depend on the line alone and are named `whitespace_split`;
/// which characters count as whitespace is not written out here.
#[verifier::external_body]
fn split_whitespace(line: &str) -> (tokens: Vec<String>)
    ensures
        tokens@.map_values(|t: String| t@) == whitespace_split(line@),
{
    line.split_whitespace().map(|t| t.to_string()).collect()
}

pub open spec fn is_digit(c: char) -> bool {
    '0' <= c <= '9'
}

/// The value of a string of decimal digits.
pub open spec fn digits_value(s: Seq<char>) -> int
    decreases s.len(),
{
    if s.len() == 0 {
        0
    } else {
        digits_value(s.drop_last()) * 10 + (s.last() as int - '0' as int)
    }
}

/// The `usize` that a string spells: an optional `+`, then one or more
/// decimal digits, of a value that fits.
pub open spec fn decimal_usize(s: Seq<char>) -> Option<usize> {
    let body = if s.len() > 0 && s[0] == '+' {
        s.drop_first()
    } else {
        s
    };
    if body.len() > 0 && (forall|i: int| 0 <= i < body.len() ==> is_digit(#[trigger] body[i]))
        && digits_value(body) <= usize::MAX {
        Some(digits_value(body) as usize)
    } else {
        None
    }
}

/// Calls `str::parse::<usize>`. Its documentation (`usize::from_str_radix`
/// in radix 10) accepts an optional `+` sign followed by decimal digits
/// and nothing else, and fails when the value does not fit.
#[verifier::external_body]
fn parse_usize(s: &str) -> (r: Option<usize>)
    ensures
        r == decimal_usize(s@),
{
    s.parse::<usize>().ok()
}

/// The plain outcome of reading a line cut into `tokens`, with
/// `vertex_count` vertices read before it.
pub enum ObjKind {
    Vertex,
    Face(usize, usize, usize),
    Skip,
    BadIndex,
    IndexOutOfRange,
}

/// A vertex index counted from 1 names one of `vertex_count` vertices.
pub open spec fn in_range(index: usize, vertex_count: usize) -> bool {
    1 <= index <= vertex_count
}

pub open spec fn obj_kind(tokens: Seq<Seq<char>>, vertex_count: usize) -> ObjKind {
    if tokens.len() >= 4 && tokens[0] == seq!['v'] {
        ObjKind::Vertex
    } else if tokens.len() >= 4 && tokens[0] == seq!['f'] {
        let (a, b, c) = (
            decimal_usize(tokens[1]),
            decimal_usize(tokens[2]),
            decimal_usize(tokens[3]),
        );
        if a is None || b is None || c is None {
            ObjKind::BadIndex
        } else if !in_range(a->0, vertex_count) || !in_range(b->0, vertex_count) || !in_range(
            c->0,
            vertex_count,
        ) {
            ObjKind::IndexOutOfRange
        } else {
            ObjKind::Face((a->0 - 1) as usize, (b->0 - 1) as usize, (c->0 - 1) as usize)
        }
    } else {
        ObjKind::Skip
    }
}

/// `r` is what reading a line cut into `tokens` gives.
pub open spec fn describes(r: Result<ObjLine, ObjError>, tokens: Seq<Seq<char>>, vertex_count: usize) -> bool {
    match obj_kind(tokens, vertex_count) {
        ObjKind::Vertex => r matches Ok(ObjLine::Vertex(x, y, z)) && x@ == tokens[1] && y@ == tokens[2]
            && z@ == tokens[3],
        ObjKind::Face(a, b, c) => r == Ok::<ObjLine, ObjError>(ObjLine::Face(a, b, c)),
        ObjKind::Skip => r == Ok::<ObjLine, ObjError>(ObjLine::Skip),
        ObjKind::BadIndex => r == Err::<ObjLine, ObjError>(ObjError::BadIndex),
        ObjKind::IndexOutOfRange => r == Err::<ObjLine, ObjError>(ObjError::IndexOutOfRange),
    }
}

/// Whether the piece is the single character `c`.
fn is_keyword(token: &String, c: char) -> (r: bool)
    ensures
        r == (token@ == seq![c]),
{
    let s = token.as_str();
    if s.unicode_len() == 1 {
        let first = s.get_char(0);
        assert(s@ =~= seq![first]);
        first == c
    } else {
        false
    }
}

/// Reads a line that has been cut into pieces, with `vertex_count`
/// vertices read before it.
pub fn parse_obj_tokens(tokens: &Vec<String>, vertex_count: usize) -> (r: Result<ObjLine, ObjError>)
    ensures
        describes(r, tokens@.map_values(|t: String| t@), vertex_count),
{
    let ghost views = tokens@.map_values(|t: String| t@);
    if tokens.len() < 4 {
        return Ok(ObjLine::Skip);
    }
    assert(views[0] == tokens@[0]@);
    assert(views[1] == tokens@[1]@);
    assert(views[2] == tokens@[2]@);
    assert(views[3] == tokens@[3]@);
    if is_keyword(&tokens[0], 'v') {
        Ok(ObjLine::Vertex(tokens[1].clone(), tokens[2].clone(), tokens[3].clone()))
    } else if is_keyword(&tokens[0], 'f') {
        let a = parse_usize(tokens[1].as_str());
        let b = parse_usize(tokens[2].as_str());
        let c = parse_usize(tokens[3].as_str());
        match (a, b, c) {
            (Some(a), Some(b), Some(c)) => {
                if 1 <= a && a <= vertex_count && 1 <= b && b <= vertex_count && 1 <= c && c
                    <= vertex_count {
                    Ok(ObjLine::Face(a - 1, b - 1, c - 1))
                } else {
                    Err(ObjError::IndexOutOfRange)
                }
            },
            _ => Err(ObjError::BadIndex),
        }
    } else {
        Ok(ObjLine::Skip)
    }
}

/// Reads one line of the file, with `vertex_count` vertices read before it.
pub fn parse_obj_line(line: &str, vertex_count: usize) -> (r: Result<ObjLine, ObjError>)
    ensures
        describes(r, whitespace_split(line@), vertex_count),
{
    let tokens = split_whitespace(line);
    parse_obj_tokens(&tokens, vertex_count)
}

/// A line whose first piece is `v` and that has at least three more pieces
/// is a vertex made of the three pieces after `v`, whatever follows them.
pub proof fn lemma_vertex_line(r: Result<ObjLine, ObjError>, tokens: Seq<Seq<char>>, vertex_count: usize)
    requires
        describes(r, tokens, vertex_count),
        tokens.len() >= 4,
        tokens[0] == seq!['v'],
    ensures
        r matches Ok(ObjLine::Vertex(x, y, z)) && x@ == tokens[1] && y@ == tokens[2] && z@ == tokens[3],
{
}

/// A line whose first piece is `f` and that has at least three more pieces
/// is a face, whose indices counted from 0 are one less than the numbers
/// written in the three pieces after `f`, when all three are decimal numbers
/// naming vertices read before; it is refused as a bad index when one of
/// the three is not a decimal number, and as out of range when all are but
/// one is 0 or beyond the vertices read.
pub proof fn lemma_face_line(r: Result<ObjLine, ObjError>, tokens: Seq<Seq<char>>, vertex_count: usize)
    requires
        describes(r, tokens, vertex_count),
        tokens.len() >= 4,
        tokens[0] == seq!['f'],
    ensures
        r matches Ok(ObjLine::Face(a, b, c)) ==> decimal_usize(tokens[1]) == Some((a + 1) as usize)
            && decimal_usize(tokens[2]) == Some((b + 1) as usize) && decimal_usize(tokens[3]) == Some(
            (c + 1) as usize,
        ) && a < vertex_count && b < vertex_count && c < vertex_count,
        r == Err::<ObjLine, ObjError>(ObjError::BadIndex) <==> (decimal_usize(tokens[1]) is None
            || decimal_usize(tokens[2]) is None || decimal_usize(tokens[3]) is None),
        r == Err::<ObjLine, ObjError>(ObjError::IndexOutOfRange) <==> (decimal_usize(tokens[1]) is Some
            && decimal_usize(tokens[2]) is Some && decimal_usize(tokens[3]) is Some && !(1
            <= decimal_usize(tokens[1])->0 <= vertex_count && 1 <= decimal_usize(tokens[2])->0
            <= vertex_count && 1 <= decimal_usize(tokens[3])->0 <= vertex_count)),
        r is Ok ==> r matches Ok(ObjLine::Face(_, _, _)),
{
    assert(tokens[0] != seq!['v']) by {
        assert(tokens[0][0] == 'f');
    }
    let (a, b, c) = (decimal_usize(tokens[1]), decimal_usize(tokens[2]), decimal_usize(tokens[3]));
    if a is None || b is None || c is None {
        assert(obj_kind(tokens, vertex_count) == ObjKind::BadIndex);
    } else if !in_range(a->0, vertex_count) || !in_range(b->0, vertex_count) || !in_range(c->0, vertex_count) {
        assert(obj_kind(tokens, vertex_count) == ObjKind::IndexOutOfRange);
    } else {
        assert(obj_kind(tokens, vertex_count) == ObjKind::Face(
            (a->0 - 1) as usize,
            (b->0 - 1) as usize,
            (c->0 - 1) as usize,
        ));
    }
}

/// A line of fewer than four pieces, or whose first piece is neither `v`
/// nor `f`, is skipped.
pub proof fn lemma_other_lines_skipped(r: Result<ObjLine, ObjError>, tokens: Seq<Seq<char>>, vertex_count: usize)
    requires
        describes(r, tokens, vertex_count),
        tokens.len() < 4 || (tokens[0] != seq!['v'] && tokens[0] != seq!['f']),
    ensures
        r == Ok::<ObjLine, ObjError>(ObjLine::Skip),
{
}

/// A face always names vertices that have been read: its indices, counted
/// from 0, are below the number of vertices read before it.
pub proof fn lemma_face_indices_in_range(
    r: Result<ObjLine, ObjError>,
    tokens: Seq<Seq<char>>,
    vertex_count: usize,
)
    requires
        describes(r, tokens, vertex_count),
        r matches Ok(ObjLine::Face(_, _, _)),
    ensures
        r matches Ok(ObjLine::Face(a, b, c)) && a < vertex_count && b < vertex_count && c < vertex_count,
{
}

} // verus!
