//! The kinds of diff lines and how a diff is put together from them, and
//! the centring of a popup inside an area.

use vstd::prelude::*;

verus! {

/// The kind of a line of a diff.
#[derive(Copy, Clone, PartialEq, Eq, Debug, Structural)]
pub enum DiffLineType {
    Plain,
    Header,
    Add,
    Delete,
}

impl Default for DiffLineType {
    fn default() -> (r: Self)
        ensures
            r == DiffLineType::Plain,
    {
        DiffLineType::Plain
    }
}

/// One line of a diff.
#[derive(Debug, PartialEq)]
pub struct DiffLine {
    pub content: String,
    pub line_type: DiffLineType,
}

/// A line of a diff as a plain value.
pub struct DiffLineView {
    pub content: Seq<char>,
    pub line_type: DiffLineType,
}

impl View for DiffLine {
    type V = DiffLineView;

    open spec fn view(&self) -> DiffLineView {
        DiffLineView { content: self.content@, line_type: self.line_type }
    }
}

impl Default for DiffLine {
    fn default() -> (r: Self)
        ensures
            r@ == (DiffLineView { content: Seq::empty(), line_type: DiffLineType::Plain }),
    {
        DiffLine { content: String::new(), line_type: DiffLineType::Plain }
    }
}

/// The lines of a diff, in order.
#[derive(Debug, PartialEq)]
pub struct Diff(pub Vec<DiffLine>);

impl View for Diff {
    type V = Seq<DiffLineView>;

    open spec fn view(&self) -> Seq<DiffLineView> {
        self.0@.map_values(|l: DiffLine| l@)
    }
}

impl Default for Diff {
    fn default() -> (r: Self)
        ensures
            r@.len() == 0,
    {
        Diff(Vec::new())
    }
}

/// The origin mark of a line that names the file and is left out of a diff.
pub const FILE_HEADER: char = 'F';

/// The kind of a line by its origin mark: `H` heads a hunk, `-` and `<`
/// mark a line taken away, `+` and `>` one put in.
pub open spec fn line_type_of(origin: char) -> DiffLineType {
    if origin == 'H' {
        DiffLineType::Header
    } else if origin == '<' || origin == '-' {
        DiffLineType::Delete
    } else if origin == '>' || origin == '+' {
        DiffLineType::Add
    } else {
        DiffLineType::Plain
    }
}

/// The empty line that parts one hunk from the next.
pub open spec fn blank_line() -> DiffLineView {
    DiffLineView { content: seq!['\n'], line_type: DiffLineType::Plain }
}

/// The lines of a diff after one more line was read. A file header is left
/// out; a hunk header that is not the first line comes after a blank line.
pub open spec fn with_line(lines: Seq<DiffLineView>, origin: char, content: Seq<char>) -> Seq<
    DiffLineView,
> {
    let line = DiffLineView { content, line_type: line_type_of(origin) };
    if origin == FILE_HEADER {
        lines
    } else if line.line_type == DiffLineType::Header && lines.len() > 0 {
        lines.push(blank_line()).push(line)
    } else {
        lines.push(line)
    }
}

impl DiffLineType {
    /// The kind of a line by its origin mark.
    pub fn from_origin(origin: char) -> (r: Self)
        ensures
            r == line_type_of(origin),
    {
        match origin {
            'H' => DiffLineType::Header,
            '<' | '-' => DiffLineType::Delete,
            '>' | '+' => DiffLineType::Add,
            _ => DiffLineType::Plain,
        }
    }
}

impl Diff {
    /// Takes one more line into the diff.
    pub fn push_line(&mut self, origin: char, content: String)
        ensures
            final(self)@ == with_line(old(self)@, origin, content@),
    {
        if origin != FILE_HEADER {
            let line_type = DiffLineType::from_origin(origin);
            let diff_line = DiffLine { content, line_type };
            if line_type == DiffLineType::Header && self.0.len() > 0 {
                proof {
                    reveal_strlit("\n");
                }
                let blank = DiffLine { content: "\n".to_owned(), line_type: DiffLineType::Plain };
                assert(blank@.content =~= seq!['\n']);
                self.0.push(blank);
            }
            self.0.push(diff_line);
        }
        assert(self@ =~= with_line(old(self)@, origin, content@));
    }
}

/// An area of the screen.
#[derive(Copy, Clone, PartialEq, Eq, Debug, Structural)]
pub struct Rect {
    pub x: u16,
    pub y: u16,
    pub width: u16,
    pub height: u16,
}

/// The direction in which an area is cut into pieces.
#[derive(Copy, Clone, PartialEq, Eq, Debug, Structural)]
pub enum Direction {
    Horizontal,
    Vertical,
}

/// The share, in percent, that is left on either side of a piece that takes
/// `percent` of the whole.
pub open spec fn margin(percent: u16) -> int {
    (100 - percent) / 2
}

/// The side of the area that a cut in the given direction divides.
pub open spec fn extent(area: Rect, direction: Direction) -> int {
    match direction {
        Direction::Horizontal => area.width as int,
        Direction::Vertical => area.height as int,
    }
}

/// The area can be cut so that the middle piece takes `percent` of it: the
/// area ends within the range of its coordinates, and so does each share of
/// the side that is divided, counted in hundredths.
pub open spec fn can_cut(area: Rect, direction: Direction, percent: u16) -> bool {
    &&& percent <= 100
    &&& area.x + area.width <= u16::MAX
    &&& area.y + area.height <= u16::MAX
    &&& percent * extent(area, direction) <= u16::MAX
    &&& margin(percent) * extent(area, direction) <= u16::MAX
}

/// Calls `split` of `tui::layout::Layout` on a layout of three percentage
/// constraints in the given direction and hands back the pieces. The
/// contract claims only that there is one piece for each constraint; where
/// the pieces lie is left to the constraint solver behind the call. The
/// call adds the area's position to its size and multiplies each percentage
/// by the side that is divided, all in 16 bits, so `requires` keeps these
/// within range.
#[verifier::external_body]
fn split_in_three(direction: Direction, first: u16, second: u16, third: u16, area: Rect) -> (chunks:
    Vec<Rect>)
    requires
        area.x + area.width <= u16::MAX,
        area.y + area.height <= u16::MAX,
        first * extent(area, direction) <= u16::MAX,
        second * extent(area, direction) <= u16::MAX,
        third * extent(area, direction) <= u16::MAX,
    ensures
        chunks@.len() == 3,
{
    let direction = match direction {
        Direction::Horizontal => tui::layout::Direction::Horizontal,
        Direction::Vertical => tui::layout::Direction::Vertical,
    };
    let constraints: Vec<tui::layout::Constraint> = [first, second, third].iter().map(
        |p| tui::layout::Constraint::Percentage(*p),
    ).collect();
    let area = tui::layout::Rect { x: area.x, y: area.y, width: area.width, height: area.height };
    let chunks = tui::layout::Layout::default().direction(direction).constraints(constraints).split(
        area,
    );
    chunks.iter().map(|r| Rect { x: r.x, y: r.y, width: r.width, height: r.height }).collect()
}

/// Whether the area can be cut so that the middle piece takes `percent` of
/// it.
pub fn cuts(area: Rect, direction: Direction, percent: u16) -> (r: bool)
    ensures
        r == can_cut(area, direction, percent),
{
    if percent > 100 {
        return false;
    }
    let side: u32 = match direction {
        Direction::Horizontal => area.width as u32,
        Direction::Vertical => area.height as u32,
    };
    let limit: u32 = 0xffff;
    let rest: u32 = (100 - percent as u32) / 2;
    let share: u32 = percent as u32;
    assert(share * side <= 100 * 0xffff && rest * side <= 100 * 0xffff) by (nonlinear_arith)
        requires
            share <= 100,
            rest <= 100,
            side <= 0xffff,
    ;
    area.x as u32 + area.width as u32 <= limit && area.y as u32 + area.height as u32 <= limit
        && share * side <= limit && rest * side <= limit
}

/// The middle one of the pieces of a cut, if there is one.
pub fn middle_of(chunks: &Vec<Rect>) -> (r: Option<Rect>)
    ensures
        r == if chunks@.len() > 1 {
            Some(chunks@[1])
        } else {
            None
        },
{
    if chunks.len() > 1 {
        Some(chunks[1])
    } else {
        None
    }
}

/// The three shares, in percent, into which a side is cut so that the
/// middle one takes `percent` of it and the others what is left, in equal
/// parts.
pub fn shares(percent: u16) -> (r: (u16, u16, u16))
    requires
        percent <= 100,
    ensures
        r == (margin(percent) as u16, percent, margin(percent) as u16),
{
    let rest = (100 - percent) / 2;
    (rest, percent, rest)
}

/// The middle piece of the area, cut in the given direction so that the
/// piece takes `percent` of it and what is left lies in equal shares on
/// either side. There is a piece exactly if the area can be cut so.
pub fn middle_piece(area: Rect, direction: Direction, percent: u16) -> (r: Option<Rect>)
    ensures
        r is Some <==> can_cut(area, direction, percent),
{
    if !cuts(area, direction, percent) {
        return None;
    }
    let (first, second, third) = shares(percent);
    let chunks = split_in_three(direction, first, second, third, area);
    middle_of(&chunks)
}

/// An area centred inside `r` that takes `percent_x` of its width and
/// `percent_y` of its height: the middle piece of the middle band. There is
/// none where `r` cannot be cut into bands, or the band not into pieces.
pub fn centered_rect(percent_x: u16, percent_y: u16, r: Rect) -> (res: Option<Rect>)
    ensures
        res is Some ==> percent_x <= 100 && can_cut(r, Direction::Vertical, percent_y),
        !can_cut(r, Direction::Vertical, percent_y) ==> res is None,
{
    match middle_piece(r, Direction::Vertical, percent_y) {
        Some(band) => middle_piece(band, Direction::Horizontal, percent_x),
        None => None,
    }
}

} // verus!
