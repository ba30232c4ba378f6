//! The farm and its text description: ants, rooms (with the `##start` and `##end`
//! commands), and links, read line by line.
use vstd::prelude::*;
use vstd::multiset::Multiset;
use vstd::relations::{sorted_by, total_ordering};
use vstd::string::StrSliceExecFns;
use crate::schedule::graph_bounded;
use crate::text::{
    chars_of, fields, find_invalid_name_char, first_invalid_name_char, parse_i64, parse_i64_at,
    lemma_trim_idempotent, parse_u32, parse_u32_at, range_eq, split_at_char, split_fields, split_on, trim,
    trim_bounds, is_name_char, is_ws, lemma_fields_without_ws, lemma_name_chars,
    lemma_split_on_pieces, lemma_split_on_len, lemma_fields_nonempty_pieces,
    lemma_name_chars_accepted, lemma_split_on_pair,
};

verus! {

/// A room of the farm: its name and its coordinates.
#[derive(Clone, Debug, PartialEq, Eq)]
pub struct Room {
    pub name: String,
    pub x: i64,
    pub y: i64,
}

/// The mathematical value of a room.
pub struct RoomView {
    pub name: Seq<char>,
    pub x: i64,
    pub y: i64,
}

impl View for Room {
    type V = RoomView;

    open spec fn view(&self) -> RoomView {
        RoomView { name: self.name@, x: self.x, y: self.y }
    }
}

impl Room {
    /// Builds a room from its name and coordinates.
    pub fn new(name: &str, x: i64, y: i64) -> (room: Room)
        ensures
            room@ == (RoomView { name: name@, x, y }),
    {
        Room { name: name.to_owned(), x, y }
    }
}

/// A parsed farm: the number of ants, the rooms, the tubes as adjacency lists of room
/// indices, and the indices of the start and end rooms.
#[derive(Clone, Debug, PartialEq, Eq)]
pub struct Farm {
    pub ants: u32,
    pub rooms: Vec<Room>,
    pub links: Vec<Vec<usize>>,
    pub start: usize,
    pub end: usize,
}

impl Farm {
    /// The adjacency lists as sequences.
    pub open spec fn graph(&self) -> Seq<Seq<usize>> {
        self.links@.map_values(|l: Vec<usize>| l@)
    }

    /// Every index held by the map names one of its rooms.
    pub open spec fn wf(&self) -> bool {
        &&& self.links.len() == self.rooms.len()
        &&& self.start < self.rooms.len()
        &&& self.end < self.rooms.len()
        &&& crate::schedule::graph_bounded(self.graph(), self.rooms.len() as nat)
    }
}

/// Why a farm description is refused.
#[derive(Debug, PartialEq, Eq)]
pub enum ParseMapError {
    InvalidAntsNumber(String),
    InvalidRoomLine(String),
    InvalidCharacterInRoomName(String, char),
    RoomNameStartsWithL(String),
    DuplicateRoomName(String, String),
    InvalidRoomCoordinate(String, char, String),
    InvalidTag(String),
    InvalidLinkLine(String),
    UnknownRoomNameInLink(String, String),
    MultipleStartRooms,
    MultipleEndRooms,
    MissingAntsNumber,
    MissingRooms,
    MissingStartRoom,
    MissingEndRoom,
    MissingLinks,
}

/// The mathematical value of a [`ParseMapError`].
pub enum ParseErrorView {
    InvalidAntsNumber(Seq<char>),
    InvalidRoomLine(Seq<char>),
    InvalidCharacterInRoomName(Seq<char>, char),
    RoomNameStartsWithL(Seq<char>),
    DuplicateRoomName(Seq<char>, Seq<char>),
    InvalidRoomCoordinate(Seq<char>, char, Seq<char>),
    InvalidTag(Seq<char>),
    InvalidLinkLine(Seq<char>),
    UnknownRoomNameInLink(Seq<char>, Seq<char>),
    MultipleStartRooms,
    MultipleEndRooms,
    MissingAntsNumber,
    MissingRooms,
    MissingStartRoom,
    MissingEndRoom,
    MissingLinks,
}

impl View for ParseMapError {
    type V = ParseErrorView;

    open spec fn view(&self) -> ParseErrorView {
        match self {
            ParseMapError::InvalidAntsNumber(l) => ParseErrorView::InvalidAntsNumber(l@),
            ParseMapError::InvalidRoomLine(l) => ParseErrorView::InvalidRoomLine(l@),
            ParseMapError::InvalidCharacterInRoomName(l, c) => ParseErrorView::InvalidCharacterInRoomName(
                l@,
                *c,
            ),
            ParseMapError::RoomNameStartsWithL(l) => ParseErrorView::RoomNameStartsWithL(l@),
            ParseMapError::DuplicateRoomName(l, n) => ParseErrorView::DuplicateRoomName(l@, n@),
            ParseMapError::InvalidRoomCoordinate(l, c, v) => ParseErrorView::InvalidRoomCoordinate(
                l@,
                *c,
                v@,
            ),
            ParseMapError::InvalidTag(l) => ParseErrorView::InvalidTag(l@),
            ParseMapError::InvalidLinkLine(l) => ParseErrorView::InvalidLinkLine(l@),
            ParseMapError::UnknownRoomNameInLink(l, n) => ParseErrorView::UnknownRoomNameInLink(
                l@,
                n@,
            ),
            ParseMapError::MultipleStartRooms => ParseErrorView::MultipleStartRooms,
            ParseMapError::MultipleEndRooms => ParseErrorView::MultipleEndRooms,
            ParseMapError::MissingAntsNumber => ParseErrorView::MissingAntsNumber,
            ParseMapError::MissingRooms => ParseErrorView::MissingRooms,
            ParseMapError::MissingStartRoom => ParseErrorView::MissingStartRoom,
            ParseMapError::MissingEndRoom => ParseErrorView::MissingEndRoom,
            ParseMapError::MissingLinks => ParseErrorView::MissingLinks,
        }
    }
}

/// The rooms as values.
pub open spec fn rooms_view(rooms: Seq<Room>) -> Seq<RoomView> {
    rooms.map_values(|r: Room| r@)
}

/// Some room is called `name`.
pub open spec fn name_taken(rooms: Seq<RoomView>, name: Seq<char>) -> bool {
    exists|i: int| 0 <= i < rooms.len() && #[trigger] rooms[i].name == name
}

/// No two rooms share a name.
pub open spec fn names_distinct(rooms: Seq<RoomView>) -> bool {
    forall|i: int, j: int|
        0 <= i < rooms.len() && 0 <= j < rooms.len() && i != j ==> #[trigger] rooms[i].name
            != #[trigger] rooms[j].name
}

/// The index of the room called `name`, if any.
pub open spec fn room_index(rooms: Seq<RoomView>, name: Seq<char>) -> Option<usize> {
    if name_taken(rooms, name) {
        Some((choose|i: int| 0 <= i < rooms.len() && #[trigger] rooms[i].name == name) as usize)
    } else {
        None
    }
}

/// A room line: exactly three whitespace-separated fields, a name made of ASCII letters,
/// digits and `_` that does not start with `L` and is not taken yet, and two `i64`
/// coordinates.  Errors carry the (trimmed) line.
pub open spec fn spec_parse_room(line: Seq<char>, rooms: Seq<RoomView>) -> Result<RoomView, ParseErrorView> {
    let f = fields(line);
    if f.len() != 3 {
        Err(ParseErrorView::InvalidRoomLine(line))
    } else if first_invalid_name_char(f[0]) is Some {
        Err(ParseErrorView::InvalidCharacterInRoomName(line, first_invalid_name_char(f[0]).unwrap()))
    } else if f[0].len() > 0 && f[0][0] == 'L' {
        Err(ParseErrorView::RoomNameStartsWithL(line))
    } else if name_taken(rooms, f[0]) {
        Err(ParseErrorView::DuplicateRoomName(line, f[0]))
    } else if parse_i64(f[1]) is None {
        Err(ParseErrorView::InvalidRoomCoordinate(line, 'x', f[1]))
    } else if parse_i64(f[2]) is None {
        Err(ParseErrorView::InvalidRoomCoordinate(line, 'y', f[2]))
    } else {
        Ok(RoomView { name: f[0], x: parse_i64(f[1]).unwrap(), y: parse_i64(f[2]).unwrap() })
    }
}

/// A link line: two names of existing rooms separated by a single `-`.
pub open spec fn spec_parse_link(line: Seq<char>, rooms: Seq<RoomView>) -> Result<
    (usize, usize),
    ParseErrorView,
> {
    let parts = split_on(line, '-');
    if parts.len() != 2 {
        Err(ParseErrorView::InvalidLinkLine(line))
    } else {
        match room_index(rooms, parts[0]) {
            None => Err(ParseErrorView::UnknownRoomNameInLink(line, parts[0])),
            Some(a) => match room_index(rooms, parts[1]) {
                None => Err(ParseErrorView::UnknownRoomNameInLink(line, parts[1])),
                Some(b) => Ok((a, b)),
            },
        }
    }
}

/// A room result as a value.
pub open spec fn room_result_view(r: Result<Room, ParseMapError>) -> Result<RoomView, ParseErrorView> {
    match r {
        Ok(room) => Ok(room@),
        Err(e) => Err(e@),
    }
}

/// A link result as a value.
pub open spec fn link_result_view(r: Result<(usize, usize), ParseMapError>) -> Result<
    (usize, usize),
    ParseErrorView,
> {
    match r {
        Ok(l) => Ok(l),
        Err(e) => Err(e@),
    }
}

/// Finds the room called `name`.
fn find_room(rooms: &Vec<Room>, name: &String) -> (r: Option<usize>)
    ensures
        match r {
            Some(i) => i < rooms.len() && rooms@[i as int].name@ == name@,
            None => !name_taken(rooms_view(rooms@), name@),
        },
{
    let mut i: usize = 0;
    while i < rooms.len()
        invariant
            i <= rooms.len(),
            forall|k: int| 0 <= k < i ==> rooms@[k].name@ != name@,
        decreases rooms.len() - i,
    {
        if rooms[i].name == *name {
            return Some(i);
        }
        i += 1;
    }
    proof {
        assert forall|k: int| 0 <= k < rooms.len() implies #[trigger] rooms_view(rooms@)[k].name
            != name@ by {
            assert(rooms_view(rooms@)[k] == rooms@[k]@);
        }
    }
    None
}

pub proof fn lemma_room_index(rooms: Seq<RoomView>, name: Seq<char>, i: int)
    requires
        names_distinct(rooms),
        0 <= i < rooms.len(),
        rooms[i].name == name,
    ensures
        room_index(rooms, name) == Some(i as usize),
{
    assert(name_taken(rooms, name));
    let j = choose|j: int| 0 <= j < rooms.len() && #[trigger] rooms[j].name == name;
    assert(rooms[j].name == rooms[i].name);
}

impl Farm {
    /// Parses the number of ants.
    pub fn parse_ants(line: &str) -> (r: Result<u32, ParseMapError>)
        ensures
            match parse_u32(line@) {
                Some(v) => r == Ok::<u32, ParseMapError>(v),
                None => r is Err && r->Err_0@ == ParseErrorView::InvalidAntsNumber(line@),
            },
    {
        let chars = chars_of(line);
        assert(chars@.subrange(0, chars.len() as int) =~= line@);
        match parse_u32_at(&chars, 0, chars.len()) {
            Some(v) => Ok(v),
            None => Err(ParseMapError::InvalidAntsNumber(line.to_owned())),
        }
    }

    /// Parses a room line; `rooms` are the rooms declared before it.
    pub fn parse_room(line: &str, rooms: &Vec<Room>) -> (r: Result<Room, ParseMapError>)
        ensures
            room_result_view(r) == spec_parse_room(line@, rooms_view(rooms@)),
    {
        let chars = chars_of(line);
        let ghost f = fields(line@);
        assert(chars@.subrange(0, chars.len() as int) =~= line@);
        let parts = split_fields(&chars, 0, chars.len());
        if parts.len() != 3 {
            return Err(ParseMapError::InvalidRoomLine(line.to_owned()));
        }
        let (n0, n1) = parts[0];
        let (x0, x1) = parts[1];
        let (y0, y1) = parts[2];
        assert(chars@.subrange(n0 as int, n1 as int) == f[0]);
        assert(chars@.subrange(x0 as int, x1 as int) == f[1]);
        assert(chars@.subrange(y0 as int, y1 as int) == f[2]);
        match find_invalid_name_char(&chars, n0, n1) {
            Some(c) => {
                return Err(ParseMapError::InvalidCharacterInRoomName(line.to_owned(), c));
            },
            None => {},
        }
        if n0 < n1 && chars[n0] == 'L' {
            assert(f[0][0] == chars@[n0 as int]);
            return Err(ParseMapError::RoomNameStartsWithL(line.to_owned()));
        }
        let name: String = line.substring_char(n0, n1).to_owned();
        if find_room(rooms, &name).is_some() {
            assert(name_taken(rooms_view(rooms@), f[0])) by {
                let i = choose|i: int| 0 <= i < rooms.len() && rooms@[i].name@ == name@;
                assert(rooms_view(rooms@)[i].name == f[0]);
            }
            return Err(ParseMapError::DuplicateRoomName(line.to_owned(), name));
        }
        let x = match parse_i64_at(&chars, x0, x1) {
            Some(v) => v,
            None => {
                let coord = line.substring_char(x0, x1).to_owned();
                return Err(ParseMapError::InvalidRoomCoordinate(line.to_owned(), 'x', coord));
            },
        };
        let y = match parse_i64_at(&chars, y0, y1) {
            Some(v) => v,
            None => {
                let coord = line.substring_char(y0, y1).to_owned();
                return Err(ParseMapError::InvalidRoomCoordinate(line.to_owned(), 'y', coord));
            },
        };
        Ok(Room { name, x, y })
    }

    /// Parses a link line; `rooms` are the rooms declared before it.
    pub fn parse_link(line: &str, rooms: &Vec<Room>) -> (r: Result<(usize, usize), ParseMapError>)
        requires
            names_distinct(rooms_view(rooms@)),
        ensures
            link_result_view(r) == spec_parse_link(line@, rooms_view(rooms@)),
    {
        let chars = chars_of(line);
        let ghost p = split_on(line@, '-');
        assert(chars@.subrange(0, chars.len() as int) =~= line@);
        let parts = split_at_char(&chars, 0, chars.len(), '-');
        if parts.len() != 2 {
            return Err(ParseMapError::InvalidLinkLine(line.to_owned()));
        }
        let (a0, a1) = parts[0];
        let (b0, b1) = parts[1];
        let name1: String = line.substring_char(a0, a1).to_owned();
        let name2: String = line.substring_char(b0, b1).to_owned();
        assert(name1@ == p[0]);
        assert(name2@ == p[1]);
        let idx1 = match find_room(rooms, &name1) {
            Some(i) => {
                proof {
                    lemma_room_index(rooms_view(rooms@), name1@, i as int);
                }
                i
            },
            None => {
                return Err(ParseMapError::UnknownRoomNameInLink(line.to_owned(), name1));
            },
        };
        let idx2 = match find_room(rooms, &name2) {
            Some(i) => {
                proof {
                    lemma_room_index(rooms_view(rooms@), name2@, i as int);
                }
                i
            },
            None => {
                return Err(ParseMapError::UnknownRoomNameInLink(line.to_owned(), name2));
            },
        };
        Ok((idx1, idx2))
    }
}

/// Which special room the next room line declares.
#[derive(Clone, Copy, Debug, PartialEq, Eq)]
pub enum SpecialRoom {
    Start,
    End,
}

/// What the parser expects next.
#[derive(Clone, Copy, Debug, PartialEq, Eq)]
pub enum ParsingState {
    Ants,
    Rooms,
    SpecialRoom(SpecialRoom),
    Links,
}

/// The value of a parser: what has been read so far.
pub struct ParserView {
    pub state: ParsingState,
    pub ants: Option<u32>,
    pub rooms: Seq<RoomView>,
    pub links: Seq<Seq<usize>>,
    pub start: Option<usize>,
    pub end: Option<usize>,
}

/// Every tube is listed at both of its rooms.
pub open spec fn symmetric(links: Seq<Seq<usize>>) -> bool {
    forall|a: int, b: usize|
        0 <= a < links.len() && #[trigger] links[a].contains(b) ==> b < links.len() && links[b as int].contains(
            a as usize,
        )
}

impl ParserView {
    /// Room names are distinct, the special rooms are distinct rooms, and the adjacency
    /// lists exist (one per room, symmetric) exactly once links are being read.
    pub open spec fn wf(self) -> bool {
        &&& names_distinct(self.rooms)
        &&& (self.start matches Some(s) ==> s < self.rooms.len())
        &&& (self.end matches Some(e) ==> e < self.rooms.len())
        &&& (self.start matches Some(s) ==> (self.end matches Some(e) ==> s != e))
        &&& if self.state is Links {
            &&& self.links.len() == self.rooms.len()
            &&& graph_bounded(self.links, self.rooms.len() as nat)
            &&& symmetric(self.links)
        } else {
            self.links.len() == 0
        }
    }
}

/// The adjacency lists after the tube `a-b` is added at the end of both lists.
pub open spec fn add_link(links: Seq<Seq<usize>>, a: usize, b: usize) -> Seq<Seq<usize>> {
    let l1 = links.update(a as int, links[a as int].push(b));
    l1.update(b as int, l1[b as int].push(a))
}

/// The line `##start`.
pub open spec fn start_command() -> Seq<char> {
    seq!['#', '#', 's', 't', 'a', 'r', 't']
}

/// The line `##end`.
pub open spec fn end_command() -> Seq<char> {
    seq!['#', '#', 'e', 'n', 'd']
}

/// A comment: a line that starts with `#` but not with `##`.
pub open spec fn is_comment(line: Seq<char>) -> bool {
    line.len() >= 1 && line[0] == '#' && !(line.len() >= 2 && line[1] == '#')
}

/// One line of the description, read in state `m`: the line is trimmed; comments are
/// skipped; then the number of ants, rooms (with the `##start` and `##end` commands that
/// mark the next room), and links follow in that order.  A line in the rooms part that is
/// no room line but a link line opens the links part; the room error is reported when it
/// is no link line either.
pub open spec fn spec_step(m: ParserView, raw: Seq<char>) -> Result<ParserView, ParseErrorView> {
    let line = trim(raw);
    if is_comment(line) {
        Ok(m)
    } else {
        match m.state {
            ParsingState::Ants => match parse_u32(line) {
                Some(a) => Ok(ParserView { state: ParsingState::Rooms, ants: Some(a), ..m }),
                None => Err(ParseErrorView::InvalidAntsNumber(line)),
            },
            ParsingState::Rooms => {
                if line == start_command() {
                    if m.start is Some {
                        Err(ParseErrorView::MultipleStartRooms)
                    } else {
                        Ok(ParserView { state: ParsingState::SpecialRoom(SpecialRoom::Start), ..m })
                    }
                } else if line == end_command() {
                    if m.end is Some {
                        Err(ParseErrorView::MultipleEndRooms)
                    } else {
                        Ok(ParserView { state: ParsingState::SpecialRoom(SpecialRoom::End), ..m })
                    }
                } else if line.len() >= 2 && line[0] == '#' && line[1] == '#' {
                    Err(ParseErrorView::InvalidTag(line))
                } else {
                    match spec_parse_room(line, m.rooms) {
                        Ok(room) => Ok(ParserView { rooms: m.rooms.push(room), ..m }),
                        Err(room_error) => match spec_parse_link(line, m.rooms) {
                            Ok((a, b)) => Ok(
                                ParserView {
                                    state: ParsingState::Links,
                                    links: add_link(
                                        Seq::new(m.rooms.len(), |i: int| Seq::<usize>::empty()),
                                        a,
                                        b,
                                    ),
                                    ..m
                                },
                            ),
                            Err(ParseErrorView::InvalidLinkLine(_)) => Err(room_error),
                            Err(link_error) => Err(link_error),
                        },
                    }
                }
            },
            ParsingState::SpecialRoom(which) => match spec_parse_room(line, m.rooms) {
                Ok(room) => {
                    let idx = m.rooms.len() as usize;
                    match which {
                        SpecialRoom::Start => Ok(
                            ParserView {
                                state: ParsingState::Rooms,
                                rooms: m.rooms.push(room),
                                start: Some(idx),
                                ..m
                            },
                        ),
                        SpecialRoom::End => Ok(
                            ParserView {
                                state: ParsingState::Rooms,
                                rooms: m.rooms.push(room),
                                end: Some(idx),
                                ..m
                            },
                        ),
                    }
                },
                Err(e) => Err(e),
            },
            ParsingState::Links => match spec_parse_link(line, m.rooms) {
                Ok((a, b)) => Ok(ParserView { links: add_link(m.links, a, b), ..m }),
                Err(e) => Err(e),
            },
        }
    }
}

/// The state before any line is read.
pub open spec fn initial_parser() -> ParserView {
    ParserView {
        state: ParsingState::Ants,
        ants: None,
        rooms: Seq::empty(),
        links: Seq::empty(),
        start: None,
        end: None,
    }
}

/// The error that ends a description read into `m`, if any.
pub open spec fn spec_finish_error(m: ParserView) -> Option<ParseErrorView> {
    if m.ants is None {
        Some(ParseErrorView::MissingAntsNumber)
    } else if m.rooms.len() == 0 {
        Some(ParseErrorView::MissingRooms)
    } else if m.start is None {
        Some(ParseErrorView::MissingStartRoom)
    } else if m.end is None {
        Some(ParseErrorView::MissingEndRoom)
    } else if m.links.len() == 0 {
        Some(ParseErrorView::MissingLinks)
    } else {
        None
    }
}

/// Ascending order of room indices.
pub open spec fn index_leq() -> spec_fn(usize, usize) -> bool {
    |a: usize, b: usize| a <= b
}

/// The farm built from a complete description `m`: its adjacency lists sorted.
pub open spec fn farm_of(m: ParserView, farm: Farm) -> bool {
    &&& farm.ants == m.ants.unwrap()
    &&& rooms_view(farm.rooms@) == m.rooms
    &&& farm.start == m.start.unwrap()
    &&& farm.end == m.end.unwrap()
    &&& farm.graph() == m.links.map_values(|l: Seq<usize>| l.sort_by(index_leq()))
}

/// Reads a farm description line by line.
pub struct MapParser {
    state: ParsingState,
    ants: Option<u32>,
    rooms: Vec<Room>,
    links: Vec<Vec<usize>>,
    start: Option<usize>,
    end: Option<usize>,
}

impl View for MapParser {
    type V = ParserView;

    closed spec fn view(&self) -> ParserView {
        ParserView {
            state: self.state,
            ants: self.ants,
            rooms: rooms_view(self.rooms@),
            links: self.links@.map_values(|l: Vec<usize>| l@),
            start: self.start,
            end: self.end,
        }
    }
}

proof fn lemma_add_link_wf(m: ParserView, a: usize, b: usize, links: Seq<Seq<usize>>)
    requires
        links.len() == m.rooms.len(),
        graph_bounded(links, m.rooms.len() as nat),
        symmetric(links),
        a < m.rooms.len(),
        b < m.rooms.len(),
    ensures
        add_link(links, a, b).len() == m.rooms.len(),
        graph_bounded(add_link(links, a, b), m.rooms.len() as nat),
        symmetric(add_link(links, a, b)),
{
    let n = m.rooms.len();
    let l1 = links.update(a as int, links[a as int].push(b));
    let l2 = add_link(links, a, b);
    assert forall|i: int, j: int| 0 <= i < l2.len() && 0 <= j < l2[i].len() implies #[trigger] l2[i][j]
        < n by {
        if i == b && j == l1[b as int].len() {
        } else if i == a && j == links[a as int].len() && (i != b || j < l1[b as int].len()) {
        } else {
            assert(l2[i][j] == links[i][j]);
        }
    }
    assert forall|x: int, y: usize| 0 <= x < l2.len() && #[trigger] l2[x].contains(y) implies y < l2.len()
        && l2[y as int].contains(x as usize) by {
        let k = choose|k: int| 0 <= k < l2[x].len() && l2[x][k] == y;
        if x == b && k == l1[b as int].len() {
            assert(y == a);
            assert(l2[a as int].contains(b)) by {
                if a == b {
                    assert(l2[a as int][links[a as int].len() as int] == b);
                } else {
                    assert(l2[a as int][links[a as int].len() as int] == b);
                }
            }
        } else if x == a && k == links[a as int].len() && (x != b || k < l1[b as int].len()) {
            assert(y == b);
            assert(l2[b as int][l1[b as int].len() as int] == a);
        } else {
            assert(l2[x][k] == links[x][k]);
            assert(links[x].contains(y));
            let k2 = choose|k2: int| 0 <= k2 < links[y as int].len() && links[y as int][k2] == x as usize;
            assert(l2[y as int][k2] == links[y as int][k2]);
        }
    }
}

/// A copy of `v` in ascending order, built by inserting each item after the items not
/// greater than it.
fn sorted_copy(v: &Vec<usize>) -> (r: Vec<usize>)
    ensures
        r@ == v@.sort_by(index_leq()),
{
    broadcast use vstd::seq_lib::group_to_multiset_ensures;

    let ghost leq = index_leq();
    let mut out: Vec<usize> = Vec::new();
    let mut i: usize = 0;
    assert(v@.take(0) =~= Seq::<usize>::empty());
    while i < v.len()
        invariant
            i <= v.len(),
            leq == index_leq(),
            sorted_by(out@, leq),
            out@.to_multiset() == v@.take(i as int).to_multiset(),
        decreases v.len() - i,
    {
        let x = v[i];
        let mut pos: usize = 0;
        while pos < out.len() && out[pos] <= x
            invariant
                pos <= out.len(),
                forall|k: int| 0 <= k < pos ==> out@[k] <= x,
            decreases out.len() - pos,
        {
            pos += 1;
        }
        let ghost before = out@;
        out.insert(pos, x);
        proof {
            assert(v@.take(i + 1) =~= v@.take(i as int).push(x));
            vstd::seq_lib::to_multiset_insert(before, pos as int, x);
            vstd::seq_lib::to_multiset_build(v@.take(i as int), x);
            assert(out@ == before.insert(pos as int, x));
            assert forall|a: int, b: int| 0 <= a < b < out@.len() implies #[trigger] leq(
                out@[a],
                out@[b],
            ) by {
                if b < pos {
                    assert(leq(before[a], before[b]));
                } else if b == pos {
                    assert(out@[a] == before[a]);
                } else if a < pos {
                    assert(out@[a] <= x);
                    assert(before[pos as int] > x);
                    assert(leq(before[pos as int], before[b - 1]) || pos == b - 1);
                } else if a == pos {
                    assert(before[pos as int] > x);
                    assert(leq(before[pos as int], before[b - 1]) || pos == b - 1);
                } else {
                    assert(leq(before[a - 1], before[b - 1]));
                }
            }
        }
        i += 1;
    }
    proof {
        assert(v@.take(v.len() as int) =~= v@);
        assert(total_ordering(leq));
        v@.lemma_sort_by_ensures(leq);
        vstd::seq_lib::lemma_sorted_unique(out@, v@.sort_by(leq), leq);
    }
    out
}

impl MapParser {
    /// A parser that has read nothing.
    pub fn new() -> (p: MapParser)
        ensures
            p@ == initial_parser(),
            p.wf(),
    {
        let p = MapParser {
            state: ParsingState::Ants,
            ants: None,
            rooms: Vec::new(),
            links: Vec::new(),
            start: None,
            end: None,
        };
        assert(p@.rooms =~= Seq::<RoomView>::empty());
        assert(p@.links =~= Seq::<Seq<usize>>::empty());
        p
    }

    /// The parser's state is consistent.
    pub closed spec fn wf(&self) -> bool {
        self@.wf()
    }

    /// Adds the tube `a-b` at the end of both adjacency lists.
    fn push_link(&mut self, a: usize, b: usize)
        requires
            old(self)@.wf(),
            old(self).state is Links,
            a < old(self).rooms.len(),
            b < old(self).rooms.len(),
        ensures
            final(self)@ == (ParserView { links: add_link(old(self)@.links, a, b), ..old(self)@ }),
            final(self)@.wf(),
    {
        let ghost m = self@;
        proof {
            lemma_add_link_wf(m, a, b, m.links);
        }
        self.links[a].push(b);
        self.links[b].push(a);
        assert(self@.links =~= add_link(m.links, a, b));
    }

    /// Reads one line of the description.  A refused line leaves the parser as it was.
    pub fn feed_line(&mut self, raw: &str) -> (r: Result<(), ParseMapError>)
        requires
            old(self).wf(),
        ensures
            match spec_step(old(self)@, raw@) {
                Ok(m) => r is Ok && final(self)@ == m && final(self).wf(),
                Err(e) => r is Err && r->Err_0@ == e && final(self)@ == old(self)@ && final(self).wf(),
            },
    {
        let ghost m = self@;
        let raw_chars = chars_of(raw);
        let (lo, hi) = trim_bounds(&raw_chars);
        let line = raw.substring_char(lo, hi);
        let chars = chars_of(line);
        let len = chars.len();
        assert(chars@ == trim(raw@));
        if len >= 1 && chars[0] == '#' && !(len >= 2 && chars[1] == '#') {
            return Ok(());
        }
        match self.state {
            ParsingState::Ants => {
                match Farm::parse_ants(line) {
                    Ok(a) => {
                        self.ants = Some(a);
                        self.state = ParsingState::Rooms;
                        Ok(())
                    },
                    Err(e) => Err(e),
                }
            },
            ParsingState::Rooms => {
                let start_word: Vec<char> = vec!['#', '#', 's', 't', 'a', 'r', 't'];
                let end_word: Vec<char> = vec!['#', '#', 'e', 'n', 'd'];
                assert(chars@.subrange(0, len as int) =~= chars@);
                if range_eq(&chars, 0, len, &start_word) {
                    if self.start.is_some() {
                        return Err(ParseMapError::MultipleStartRooms);
                    }
                    self.state = ParsingState::SpecialRoom(SpecialRoom::Start);
                    return Ok(());
                }
                if range_eq(&chars, 0, len, &end_word) {
                    if self.end.is_some() {
                        return Err(ParseMapError::MultipleEndRooms);
                    }
                    self.state = ParsingState::SpecialRoom(SpecialRoom::End);
                    return Ok(());
                }
                if len >= 2 && chars[0] == '#' && chars[1] == '#' {
                    return Err(ParseMapError::InvalidTag(line.to_owned()));
                }
                match Farm::parse_room(line, &self.rooms) {
                    Ok(room) => {
                        proof {
                            lemma_push_room_distinct(m.rooms, room@);
                        }
                        self.rooms.push(room);
                        assert(self@.rooms =~= m.rooms.push(room@));
                        Ok(())
                    },
                    Err(room_error) => match Farm::parse_link(line, &self.rooms) {
                        Ok((a, b)) => {
                            let n = self.rooms.len();
                            let mut links: Vec<Vec<usize>> = Vec::new();
                            while links.len() < n
                                invariant
                                    links.len() <= n,
                                    forall|i: int| 0 <= i < links.len() ==> links@[i]@.len() == 0,
                                decreases n - links.len(),
                            {
                                links.push(Vec::new());
                            }
                            self.links = links;
                            self.state = ParsingState::Links;
                            proof {
                                let empty = Seq::new(m.rooms.len(), |i: int| Seq::<usize>::empty());
                                assert forall|i: int| 0 <= i < empty.len() implies #[trigger] self@.links[i]
                                    =~= empty[i] by {}
                                assert(self@.links =~= empty);
                                assert(graph_bounded(empty, m.rooms.len() as nat));
                                assert forall|x: int, y: usize|
                                    0 <= x < empty.len() && #[trigger] empty[x].contains(y) implies y
                                    < empty.len() && empty[y as int].contains(x as usize) by {}
                            }
                            self.push_link(a, b);
                            Ok(())
                        },
                        Err(ParseMapError::InvalidLinkLine(l)) => Err(room_error),
                        Err(link_error) => Err(link_error),
                    },
                }
            },
            ParsingState::SpecialRoom(which) => {
                match Farm::parse_room(line, &self.rooms) {
                    Ok(room) => {
                        proof {
                            lemma_push_room_distinct(m.rooms, room@);
                        }
                        let idx = self.rooms.len();
                        match which {
                            SpecialRoom::Start => {
                                self.start = Some(idx);
                            },
                            SpecialRoom::End => {
                                self.end = Some(idx);
                            },
                        }
                        self.rooms.push(room);
                        self.state = ParsingState::Rooms;
                        assert(self@.rooms =~= m.rooms.push(room@));
                        Ok(())
                    },
                    Err(e) => Err(e),
                }
            },
            ParsingState::Links => {
                match Farm::parse_link(line, &self.rooms) {
                    Ok((a, b)) => {
                        self.push_link(a, b);
                        Ok(())
                    },
                    Err(e) => Err(e),
                }
            },
        }
    }

    /// Ends the description: checks that every part is there and sorts the adjacency lists.
    pub fn finish(self) -> (r: Result<Farm, ParseMapError>)
        requires
            self.wf(),
        ensures
            match spec_finish_error(self@) {
                Some(e) => r is Err && r->Err_0@ == e,
                None => r is Ok && farm_of(self@, r->Ok_0) && r->Ok_0.wf() && r->Ok_0.start
                    != r->Ok_0.end && symmetric(r->Ok_0.graph()),
            },
    {
        let ghost m = self@;
        let ants = match self.ants {
            Some(a) => a,
            None => {
                return Err(ParseMapError::MissingAntsNumber);
            },
        };
        if self.rooms.len() == 0 {
            return Err(ParseMapError::MissingRooms);
        }
        let start = match self.start {
            Some(s) => s,
            None => {
                return Err(ParseMapError::MissingStartRoom);
            },
        };
        let end = match self.end {
            Some(e) => e,
            None => {
                return Err(ParseMapError::MissingEndRoom);
            },
        };
        if self.links.len() == 0 {
            return Err(ParseMapError::MissingLinks);
        }
        let ghost target = m.links.map_values(|l: Seq<usize>| l.sort_by(index_leq()));
        let mut links: Vec<Vec<usize>> = Vec::new();
        let mut i: usize = 0;
        while i < self.links.len()
            invariant
                i <= self.links.len(),
                links.len() == i,
                m == self@,
                target == m.links.map_values(|l: Seq<usize>| l.sort_by(index_leq())),
                forall|k: int| 0 <= k < i ==> #[trigger] links@[k]@ == target[k],
            decreases self.links.len() - i,
        {
            let sorted = sorted_copy(&self.links[i]);
            links.push(sorted);
            i += 1;
        }
        let farm = Farm { ants, rooms: self.rooms, links, start, end };
        proof {
            assert(farm.graph() =~= target);
            lemma_sorted_links(m.links, target, m.rooms.len() as nat);
        }
        Ok(farm)
    }
}

/// Sorting the adjacency lists keeps them bounded and symmetric.
proof fn lemma_sorted_links(links: Seq<Seq<usize>>, sorted: Seq<Seq<usize>>, n: nat)
    requires
        links.len() == n,
        graph_bounded(links, n),
        symmetric(links),
        sorted == links.map_values(|l: Seq<usize>| l.sort_by(index_leq())),
    ensures
        graph_bounded(sorted, n),
        symmetric(sorted),
{
    assert(total_ordering(index_leq()));
    assert forall|i: int, x: usize|
        #![trigger sorted[i].contains(x)]
        #![trigger links[i].contains(x)]
        0 <= i < n implies (sorted[i].contains(x) <==> links[i].contains(x)) by {
        links[i].lemma_sort_by_ensures(index_leq());
        vstd::seq_lib::to_multiset_contains(links[i], x);
        vstd::seq_lib::to_multiset_contains(sorted[i], x);
    }
    assert forall|i: int, j: int| 0 <= i < sorted.len() && 0 <= j < sorted[i].len() implies #[trigger] sorted[i][j]
        < n by {
        assert(sorted[i].contains(sorted[i][j]));
        let k = choose|k: int| 0 <= k < links[i].len() && links[i][k] == sorted[i][j];
    }
}

/// Adding a room whose name is not taken keeps the names distinct.
proof fn lemma_push_room_distinct(rooms: Seq<RoomView>, room: RoomView)
    requires
        names_distinct(rooms),
        !name_taken(rooms, room.name),
    ensures
        names_distinct(rooms.push(room)),
{
    let r = rooms.push(room);
    assert forall|i: int, j: int|
        0 <= i < r.len() && 0 <= j < r.len() && i != j implies #[trigger] r[i].name
        != #[trigger] r[j].name by {
        if i == rooms.len() {
            assert(rooms[j].name == r[j].name);
        } else if j == rooms.len() {
            assert(rooms[i].name == r[i].name);
        } else {
            assert(rooms[i].name == r[i].name && rooms[j].name == r[j].name);
        }
    }
}

/// The state after reading `lines` one by one, or the first error.
pub open spec fn spec_feed(lines: Seq<Seq<char>>) -> Result<ParserView, ParseErrorView>
    decreases lines.len(),
{
    if lines.len() == 0 {
        Ok(initial_parser())
    } else {
        match spec_feed(lines.drop_last()) {
            Ok(m) => spec_step(m, lines.last()),
            Err(e) => Err(e),
        }
    }
}

/// The lines as sequences of characters.
pub open spec fn lines_view(lines: Seq<String>) -> Seq<Seq<char>> {
    lines.map_values(|l: String| l@)
}

impl Farm {
    /// Parses a whole description, line by line.
    pub fn parse(lines: &Vec<String>) -> (r: Result<Farm, ParseMapError>)
        ensures
            match spec_feed(lines_view(lines@)) {
                Err(e) => r is Err && r->Err_0@ == e,
                Ok(m) => match spec_finish_error(m) {
                    Some(e) => r is Err && r->Err_0@ == e,
                    None => r is Ok && farm_of(m, r->Ok_0) && r->Ok_0.wf() && r->Ok_0.start
                        != r->Ok_0.end && symmetric(r->Ok_0.graph()) && farm_shape(r->Ok_0),
                },
            },
    {
        let mut parser = MapParser::new();
        let mut i: usize = 0;
        while i < lines.len()
            invariant
                i <= lines.len(),
                parser.wf(),
                spec_feed(lines_view(lines@).take(i as int)) == Ok::<ParserView, ParseErrorView>(
                    parser@,
                ),
                parser_shape(parser@),
            decreases lines.len() - i,
        {
            let ghost before = parser@;
            proof {
                assert(lines_view(lines@).take(i + 1).drop_last() =~= lines_view(lines@).take(
                    i as int,
                ));
                assert(lines_view(lines@).take(i + 1).last() == lines@[i as int]@);
            }
            match parser.feed_line(lines[i].as_str()) {
                Ok(()) => {
                    proof {
                        lemma_step_shape(before, lines@[i as int]@);
                    }
                },
                Err(e) => {
                    proof {
                        lemma_feed_error_sticks(lines_view(lines@), i + 1);
                    }
                    return Err(e);
                },
            }
            i += 1;
        }
        proof {
            assert(lines_view(lines@).take(lines.len() as int) =~= lines_view(lines@));
        }
        let ghost m = parser@;
        let r = parser.finish();
        proof {
            if r is Ok {
                lemma_farm_shape(m, r->Ok_0);
            }
        }
        r
    }
}

/// Once a line is refused, the whole description is refused with the same error.
proof fn lemma_feed_error_sticks(lines: Seq<Seq<char>>, k: int)
    requires
        0 <= k <= lines.len(),
        spec_feed(lines.take(k)) is Err,
    ensures
        spec_feed(lines) == spec_feed(lines.take(k)),
    decreases lines.len() - k,
{
    if k < lines.len() {
        assert(lines.take(k + 1).drop_last() =~= lines.take(k));
        lemma_feed_error_sticks(lines, k + 1);
    } else {
        assert(lines.take(k) =~= lines);
    }
}

/// Law: a comment line (after trimming, one that starts with `#` but not `##`) changes
/// nothing, wherever it is inserted in a description.
pub proof fn lemma_comment_lines_ignored(lines: Seq<Seq<char>>, i: int, comment: Seq<char>)
    requires
        0 <= i <= lines.len(),
        is_comment(trim(comment)),
    ensures
        spec_feed(lines.insert(i, comment)) == spec_feed(lines),
    decreases lines.len(),
{
    let with = lines.insert(i, comment);
    if i == lines.len() {
        assert(with.drop_last() =~= lines);
        assert(with.last() == comment);
    } else {
        assert(with.drop_last() =~= lines.drop_last().insert(i, comment));
        assert(with.last() == lines.last());
        lemma_comment_lines_ignored(lines.drop_last(), i, comment);
    }
}

/// Law: whitespace around a line does not matter; a line reads as its trimmed self.
pub proof fn lemma_surrounding_whitespace_ignored(m: ParserView, raw: Seq<char>)
    ensures
        spec_step(m, trim(raw)) == spec_step(m, raw),
{
    lemma_trim_idempotent(raw);
}

/// The lines of a description that carry meaning: every line trimmed, comment lines left out.
pub open spec fn content(lines: Seq<Seq<char>>) -> Seq<Seq<char>>
    decreases lines.len(),
{
    if lines.len() == 0 {
        Seq::empty()
    } else if is_comment(trim(lines.last())) {
        content(lines.drop_last())
    } else {
        content(lines.drop_last()).push(trim(lines.last()))
    }
}

proof fn lemma_feed_content(lines: Seq<Seq<char>>)
    ensures
        spec_feed(lines) == spec_feed(content(lines)),
    decreases lines.len(),
{
    if lines.len() > 0 {
        let rest = lines.drop_last();
        lemma_feed_content(rest);
        if !is_comment(trim(lines.last())) {
            let c = content(lines);
            assert(c.drop_last() =~= content(rest));
            assert(c.last() == trim(lines.last()));
            if let Ok(m) = spec_feed(rest) {
                lemma_surrounding_whitespace_ignored(m, lines.last());
            }
        }
    }
}

/// Law: a description reads only through its content, so adding or removing comment lines
/// anywhere, and whitespace around any line, changes nothing: two descriptions with the
/// same content give the same result.
pub proof fn lemma_only_content_matters(a: Seq<Seq<char>>, b: Seq<Seq<char>>)
    requires
        content(a) == content(b),
    ensures
        spec_feed(a) == spec_feed(b),
{
    lemma_feed_content(a);
    lemma_feed_content(b);
}

/// The adjacency lists after the tubes `ts` are added in order, each at the end of the lists
/// of both of its rooms.
pub open spec fn add_links(links: Seq<Seq<usize>>, ts: Seq<(usize, usize)>) -> Seq<Seq<usize>>
    decreases ts.len(),
{
    if ts.len() == 0 {
        links
    } else {
        add_link(add_links(links, ts.drop_last()), ts.last().0, ts.last().1)
    }
}

/// The rooms joined to room `r`, `m`, once the tube `t` is added.
pub open spec fn add_ends(m: Multiset<usize>, t: (usize, usize), r: int) -> Multiset<usize> {
    let m1 = if t.0 == r {
        m.insert(t.1)
    } else {
        m
    };
    if t.1 == r {
        m1.insert(t.0)
    } else {
        m1
    }
}

/// The rooms that the tubes `ts` join to room `r`, each as often as a tube joins them
/// (a tube from `r` to itself joins `r` to `r` twice).
pub open spec fn tube_ends(ts: Seq<(usize, usize)>, r: int) -> Multiset<usize>
    decreases ts.len(),
{
    if ts.len() == 0 {
        Multiset::empty()
    } else {
        add_ends(tube_ends(ts.drop_last(), r), ts.last(), r)
    }
}

/// Writing one tube the other way round joins every room to the same rooms.
pub proof fn lemma_tube_ends_flip(ts: Seq<(usize, usize)>, i: int, r: int)
    requires
        0 <= i < ts.len(),
    ensures
        tube_ends(ts.update(i, (ts[i].1, ts[i].0)), r) == tube_ends(ts, r),
    decreases ts.len(),
{
    broadcast use vstd::multiset::group_multiset_axioms;

    let f = ts.update(i, (ts[i].1, ts[i].0));
    if i == ts.len() - 1 {
        assert(f.drop_last() =~= ts.drop_last());
        let m = tube_ends(ts.drop_last(), r);
        let (a, b) = ts[i];
        assert(m.insert(a).insert(b) =~= m.insert(b).insert(a));
    } else {
        assert(f.drop_last() =~= ts.drop_last().update(i, (ts[i].1, ts[i].0)));
        lemma_tube_ends_flip(ts.drop_last(), i, r);
    }
}

proof fn lemma_add_ends_commute(m: Multiset<usize>, x: (usize, usize), y: (usize, usize), r: int)
    ensures
        add_ends(add_ends(m, x, r), y, r) == add_ends(add_ends(m, y, r), x, r),
{
    broadcast use vstd::multiset::group_multiset_axioms;

    assert(add_ends(add_ends(m, x, r), y, r) =~= add_ends(add_ends(m, y, r), x, r));
}

/// Listing two neighbouring tubes the other way round joins every room to the same rooms;
/// so does any reordering, which is made of such exchanges.
pub proof fn lemma_tube_ends_swap(ts: Seq<(usize, usize)>, i: int, r: int)
    requires
        0 <= i < ts.len() - 1,
    ensures
        tube_ends(ts.update(i, ts[i + 1]).update(i + 1, ts[i]), r) == tube_ends(ts, r),
    decreases ts.len(),
{
    broadcast use vstd::multiset::group_multiset_axioms;

    let w = ts.update(i, ts[i + 1]).update(i + 1, ts[i]);
    if i == ts.len() - 2 {
        let base = ts.drop_last().drop_last();
        assert(w.drop_last().drop_last() =~= base);
        assert(w.drop_last().last() == ts[i + 1]);
        assert(ts.drop_last().last() == ts[i]);
        let m = tube_ends(base, r);
        assert(ts.drop_last().drop_last() == base);
        assert(w.last() == ts[i]);
        assert(ts.last() == ts[i + 1]);
        assert(tube_ends(w.drop_last(), r) == add_ends(m, ts[i + 1], r));
        assert(tube_ends(ts.drop_last(), r) == add_ends(m, ts[i], r));
        lemma_add_ends_commute(m, ts[i], ts[i + 1], r);
    } else {
        assert(w.drop_last() =~= ts.drop_last().update(i, ts[i + 1]).update(i + 1, ts[i]));
        lemma_tube_ends_swap(ts.drop_last(), i, r);
    }
}

/// Every tube of `ts` joins rooms below `n`.
pub open spec fn tubes_within(ts: Seq<(usize, usize)>, n: nat) -> bool {
    forall|i: int| 0 <= i < ts.len() ==> #[trigger] ts[i].0 < n && ts[i].1 < n
}

/// The adjacency lists sorted, as the farm keeps them.
pub open spec fn sorted_lists(links: Seq<Seq<usize>>) -> Seq<Seq<usize>> {
    links.map_values(|l: Seq<usize>| l.sort_by(index_leq()))
}

proof fn lemma_add_links_len(links: Seq<Seq<usize>>, ts: Seq<(usize, usize)>)
    requires
        tubes_within(ts, links.len()),
    ensures
        add_links(links, ts).len() == links.len(),
    decreases ts.len(),
{
    if ts.len() > 0 {
        let rest = ts.drop_last();
        assert(tubes_within(rest, links.len())) by {
            assert forall|i: int| 0 <= i < rest.len() implies #[trigger] rest[i].0 < links.len()
                && rest[i].1 < links.len() by {
                assert(rest[i] == ts[i]);
            }
        }
        lemma_add_links_len(links, rest);
        assert(ts[ts.len() - 1] == ts.last());
    }
}

proof fn lemma_add_links_ends(links: Seq<Seq<usize>>, ts: Seq<(usize, usize)>, r: int)
    requires
        tubes_within(ts, links.len()),
        0 <= r < links.len(),
    ensures
        add_links(links, ts).len() == links.len(),
        add_links(links, ts)[r].to_multiset() == links[r].to_multiset().add(tube_ends(ts, r)),
    decreases ts.len(),
{
    broadcast use vstd::seq_lib::group_to_multiset_ensures;
    broadcast use vstd::multiset::group_multiset_axioms;

    if ts.len() == 0 {
        assert(links[r].to_multiset().add(Multiset::empty()) =~= links[r].to_multiset());
    } else {
        let rest = ts.drop_last();
        assert(tubes_within(rest, links.len())) by {
            assert forall|i: int| 0 <= i < rest.len() implies #[trigger] rest[i].0 < links.len()
                && rest[i].1 < links.len() by {
                assert(rest[i] == ts[i]);
            }
        }
        lemma_add_links_ends(links, rest, r);
        let l = add_links(links, rest);
        let (a, b) = ts.last();
        assert(ts[ts.len() - 1] == ts.last());
        let l1 = l.update(a as int, l[a as int].push(b));
        let base = links[r].to_multiset();
        let m = tube_ends(rest, r);
        let m1 = if a == r {
            m.insert(b)
        } else {
            m
        };
        assert(ts.last() == (a, b));
        assert(l1[r].to_multiset() == base.add(m1)) by {
            if a == r {
                assert(base.add(m).insert(b) =~= base.add(m.insert(b)));
            }
        }
        assert(add_links(links, ts)[r].to_multiset() == base.add(tube_ends(ts, r))) by {
            if b == r {
                assert(base.add(m1).insert(a) =~= base.add(m1.insert(a)));
            }
        }
    }
}

/// Law: the sorted adjacency lists do not depend on the order in which the tubes are added
/// nor on the direction in which each is given: tubes that join every room to the same
/// rooms, as often, give the same lists.
pub proof fn lemma_tube_order_irrelevant(
    links: Seq<Seq<usize>>,
    t1: Seq<(usize, usize)>,
    t2: Seq<(usize, usize)>,
)
    requires
        tubes_within(t1, links.len()),
        tubes_within(t2, links.len()),
        forall|r: int| 0 <= r < links.len() ==> #[trigger] tube_ends(t1, r) == tube_ends(t2, r),
    ensures
        sorted_lists(add_links(links, t1)) == sorted_lists(add_links(links, t2)),
{
    let s1 = sorted_lists(add_links(links, t1));
    let s2 = sorted_lists(add_links(links, t2));
    assert(total_ordering(index_leq()));
    lemma_add_links_len(links, t1);
    lemma_add_links_len(links, t2);
    assert forall|i: int| 0 <= i < s1.len() implies s1[i] == s2[i] by {
        lemma_add_links_ends(links, t1, i);
        lemma_add_links_ends(links, t2, i);
        let a = add_links(links, t1)[i];
        let b = add_links(links, t2)[i];
        a.lemma_sort_by_ensures(index_leq());
        b.lemma_sort_by_ensures(index_leq());
        assert(tube_ends(t1, i) == tube_ends(t2, i));
        vstd::seq_lib::lemma_sorted_unique(a.sort_by(index_leq()), b.sort_by(index_leq()), index_leq());
    }
    assert(s1 =~= s2);
}

/// Every line of `ls` reads as the tube `ts[i]` between rooms of `rooms`.
pub open spec fn tube_lines(rooms: Seq<RoomView>, ls: Seq<Seq<char>>, ts: Seq<(usize, usize)>) -> bool {
    &&& ls.len() == ts.len()
    &&& forall|i: int|
        0 <= i < ls.len() ==> !is_comment(trim(#[trigger] ls[i])) && spec_parse_link(
            trim(ls[i]),
            rooms,
        ) == Ok::<(usize, usize), ParseErrorView>(ts[i])
}

/// A line that, among the room lines, opens the tubes part: it is no command and no room
/// line.
pub open spec fn opens_tubes(rooms: Seq<RoomView>, line: Seq<char>) -> bool {
    &&& !(trim(line).len() > 0 && trim(line)[0] == '#')
    &&& spec_parse_room(trim(line), rooms) is Err
}

/// `n` empty adjacency lists.
pub open spec fn no_links(n: nat) -> Seq<Seq<usize>> {
    Seq::new(n, |i: int| Seq::<usize>::empty())
}

proof fn lemma_feed_tube_lines(
    head: Seq<Seq<char>>,
    m: ParserView,
    ls: Seq<Seq<char>>,
    ts: Seq<(usize, usize)>,
    k: int,
)
    requires
        spec_feed(head) == Ok::<ParserView, ParseErrorView>(m),
        m.state == ParsingState::Rooms,
        tube_lines(m.rooms, ls, ts),
        opens_tubes(m.rooms, ls[0]),
        1 <= k <= ls.len(),
    ensures
        spec_feed(head + ls.take(k)) == Ok::<ParserView, ParseErrorView>(
            ParserView {
                state: ParsingState::Links,
                links: add_links(no_links(m.rooms.len()), ts.take(k)),
                ..m
            },
        ),
    decreases k,
{
    let whole = head + ls.take(k);
    assert(whole.drop_last() =~= head + ls.take(k - 1));
    assert(whole.last() == ls[k - 1]);
    assert(ts.take(k).drop_last() =~= ts.take(k - 1));
    assert(ts.take(k).last() == ts[k - 1]);
    assert(!is_comment(trim(ls[k - 1])));
    if k == 1 {
        assert(head + ls.take(0) =~= head);
        assert(ts.take(0) =~= Seq::<(usize, usize)>::empty());
        let line = trim(ls[0]);
        assert(line != start_command() && line != end_command()) by {
            if line == start_command() || line == end_command() {
                assert(line[0] == '#');
            }
        }
    } else {
        lemma_feed_tube_lines(head, m, ls, ts, k - 1);
    }
}

/// Two lists of tube lines without comments that join every room to the same rooms, as
/// often, give the same farm after the same room lines.
proof fn lemma_tube_lines_plain(
    head: Seq<Seq<char>>,
    ls1: Seq<Seq<char>>,
    ts1: Seq<(usize, usize)>,
    ls2: Seq<Seq<char>>,
    ts2: Seq<(usize, usize)>,
)
    requires
        spec_feed(head) is Ok,
        spec_feed(head)->Ok_0.state == ParsingState::Rooms,
        tube_lines(spec_feed(head)->Ok_0.rooms, ls1, ts1),
        tube_lines(spec_feed(head)->Ok_0.rooms, ls2, ts2),
        ls1.len() >= 1,
        ls2.len() >= 1,
        forall|r: int| #[trigger] tube_ends(ts1, r) == tube_ends(ts2, r),
    ensures
        spec_feed(head + ls1) is Ok,
        spec_feed(head + ls2) is Ok,
        spec_finish_error(spec_feed(head + ls1)->Ok_0) == spec_finish_error(
            spec_feed(head + ls2)->Ok_0,
        ),
        forall|f: Farm|
            farm_of(spec_feed(head + ls1)->Ok_0, f) == farm_of(spec_feed(head + ls2)->Ok_0, f),
{
    let m = spec_feed(head)->Ok_0;
    let n = m.rooms.len();
    lemma_feed_names_valid(head);
    assert(spec_parse_link(trim(ls1[0]), m.rooms) is Ok);
    assert(spec_parse_link(trim(ls2[0]), m.rooms) is Ok);
    lemma_tube_line_opens_tubes(m.rooms, ls1[0]);
    lemma_tube_line_opens_tubes(m.rooms, ls2[0]);
    lemma_feed_tube_lines(head, m, ls1, ts1, ls1.len() as int);
    lemma_feed_tube_lines(head, m, ls2, ts2, ls2.len() as int);
    assert(ls1.take(ls1.len() as int) =~= ls1);
    assert(ls2.take(ls2.len() as int) =~= ls2);
    assert(ts1.take(ts1.len() as int) =~= ts1);
    assert(ts2.take(ts2.len() as int) =~= ts2);
    assert forall|i: int| 0 <= i < ts1.len() implies #[trigger] ts1[i].0 < no_links(n).len() && ts1[i].1
        < no_links(n).len() by {
        assert(spec_parse_link(trim(ls1[i]), m.rooms) == Ok::<(usize, usize), ParseErrorView>(ts1[i]));
    }
    assert forall|i: int| 0 <= i < ts2.len() implies #[trigger] ts2[i].0 < no_links(n).len() && ts2[i].1
        < no_links(n).len() by {
        assert(spec_parse_link(trim(ls2[i]), m.rooms) == Ok::<(usize, usize), ParseErrorView>(ts2[i]));
    }
    lemma_tube_order_irrelevant(no_links(n), ts1, ts2);
    lemma_add_links_len(no_links(n), ts1);
    lemma_add_links_len(no_links(n), ts2);
}

/// Every room name is made of the characters a room line accepts.
pub open spec fn names_valid(rooms: Seq<RoomView>) -> bool {
    forall|i: int| 0 <= i < rooms.len() ==> #[trigger] first_invalid_name_char(rooms[i].name) is None
}

proof fn lemma_feed_names_valid(lines: Seq<Seq<char>>)
    requires
        spec_feed(lines) is Ok,
    ensures
        names_valid(spec_feed(lines)->Ok_0.rooms),
    decreases lines.len(),
{
    if lines.len() > 0 {
        lemma_feed_names_valid(lines.drop_last());
    }
}

/// A line that reads as a tube is no room line and no command: it is two room names joined
/// by `-`, without whitespace.
proof fn lemma_tube_line_opens_tubes(rooms: Seq<RoomView>, line: Seq<char>)
    requires
        names_valid(rooms),
        spec_parse_link(trim(line), rooms) is Ok,
    ensures
        opens_tubes(rooms, line),
{
    let t = trim(line);
    let parts = split_on(t, '-');
    let ok = |c: char| is_name_char(c);
    assert(parts.len() == 2);
    assert(room_index(rooms, parts[0]) is Some && room_index(rooms, parts[1]) is Some);
    assert forall|j: int, k: int| 0 <= j < parts.len() && 0 <= k < parts[j].len() implies ok(
        #[trigger] parts[j][k],
    ) by {
        assert(name_taken(rooms, parts[j]));
        let i = choose|i: int| 0 <= i < rooms.len() && #[trigger] rooms[i].name == parts[j];
        lemma_name_chars(rooms[i].name);
        assert(is_name_char(rooms[i].name[k]));
    }
    lemma_split_on_pieces(t, '-', ok);
    assert forall|i: int| 0 <= i < t.len() implies !is_ws(#[trigger] t[i]) by {
        assert(t[i] == '-' || ok(t[i]));
    }
    lemma_fields_without_ws(t);
    if t.len() > 0 {
        assert(t[0] == '-' || ok(t[0]));
    }
}

/// The tubes read from the lines of `ls` that are no comments, in order.
pub open spec fn tubes_of(rooms: Seq<RoomView>, ls: Seq<Seq<char>>) -> Seq<(usize, usize)>
    decreases ls.len(),
{
    if ls.len() == 0 {
        Seq::empty()
    } else if is_comment(trim(ls.last())) {
        tubes_of(rooms, ls.drop_last())
    } else {
        tubes_of(rooms, ls.drop_last()).push(spec_parse_link(trim(ls.last()), rooms)->Ok_0)
    }
}

/// Every line of `ls` is a comment or reads as a tube between rooms of `rooms`.
pub open spec fn tubes_or_comments(rooms: Seq<RoomView>, ls: Seq<Seq<char>>) -> bool {
    forall|i: int|
        0 <= i < ls.len() ==> is_comment(trim(#[trigger] ls[i])) || spec_parse_link(trim(ls[i]), rooms)
            is Ok
}

proof fn lemma_content_concat(a: Seq<Seq<char>>, b: Seq<Seq<char>>)
    ensures
        content(a + b) == content(a) + content(b),
    decreases b.len(),
{
    if b.len() == 0 {
        assert(a + b =~= a);
        assert(content(a) + content(b) =~= content(a));
    } else {
        lemma_content_concat(a, b.drop_last());
        assert((a + b).drop_last() =~= a + b.drop_last());
        assert((a + b).last() == b.last());
        if !is_comment(trim(b.last())) {
            assert(content(a) + content(b.drop_last()).push(trim(b.last())) =~= (content(a) + content(
                b.drop_last(),
            )).push(trim(b.last())));
        }
    }
}

proof fn lemma_content_idempotent(x: Seq<Seq<char>>)
    ensures
        content(content(x)) == content(x),
    decreases x.len(),
{
    if x.len() > 0 {
        lemma_content_idempotent(x.drop_last());
        if !is_comment(trim(x.last())) {
            let c = content(x);
            assert(c.drop_last() =~= content(x.drop_last()));
            assert(c.last() == trim(x.last()));
            lemma_trim_idempotent(x.last());
        }
    }
}

proof fn lemma_content_tubes(rooms: Seq<RoomView>, ls: Seq<Seq<char>>)
    requires
        tubes_or_comments(rooms, ls),
    ensures
        tube_lines(rooms, content(ls), tubes_of(rooms, ls)),
    decreases ls.len(),
{
    if ls.len() > 0 {
        let init = ls.drop_last();
        assert(tubes_or_comments(rooms, init)) by {
            assert forall|i: int| 0 <= i < init.len() implies is_comment(trim(#[trigger] init[i]))
                || spec_parse_link(trim(init[i]), rooms) is Ok by {
                assert(init[i] == ls[i]);
            }
        }
        lemma_content_tubes(rooms, init);
        if !is_comment(trim(ls.last())) {
            let c = content(ls);
            let t = tubes_of(rooms, ls);
            lemma_trim_idempotent(ls.last());
            assert(ls[ls.len() - 1] == ls.last());
            assert forall|i: int| 0 <= i < c.len() implies !is_comment(trim(#[trigger] c[i]))
                && spec_parse_link(trim(c[i]), rooms) == Ok::<(usize, usize), ParseErrorView>(t[i]) by {
                if i < c.len() - 1 {
                    assert(c[i] == content(init)[i]);
                    assert(t[i] == tubes_of(rooms, init)[i]);
                }
            }
        }
    }
}

/// Law: the farm does not depend on the order of the tube lines nor on the direction in
/// which each tube is written (`a-b` or `b-a`), and comments may stand anywhere among them:
/// after the same room lines, two lists of tube and comment lines whose tubes join every
/// room to the same rooms, as often, give the same farm (or the same error at the end).
pub proof fn lemma_tube_lines_order_irrelevant(
    head: Seq<Seq<char>>,
    ls1: Seq<Seq<char>>,
    ls2: Seq<Seq<char>>,
)
    requires
        spec_feed(head) is Ok,
        spec_feed(head)->Ok_0.state == ParsingState::Rooms,
        tubes_or_comments(spec_feed(head)->Ok_0.rooms, ls1),
        tubes_or_comments(spec_feed(head)->Ok_0.rooms, ls2),
        tubes_of(spec_feed(head)->Ok_0.rooms, ls1).len() >= 1,
        tubes_of(spec_feed(head)->Ok_0.rooms, ls2).len() >= 1,
        forall|r: int|
            #[trigger] tube_ends(tubes_of(spec_feed(head)->Ok_0.rooms, ls1), r) == tube_ends(
                tubes_of(spec_feed(head)->Ok_0.rooms, ls2),
                r,
            ),
    ensures
        spec_feed(head + ls1) is Ok,
        spec_feed(head + ls2) is Ok,
        spec_finish_error(spec_feed(head + ls1)->Ok_0) == spec_finish_error(
            spec_feed(head + ls2)->Ok_0,
        ),
        forall|f: Farm|
            farm_of(spec_feed(head + ls1)->Ok_0, f) == farm_of(spec_feed(head + ls2)->Ok_0, f),
{
    let rooms = spec_feed(head)->Ok_0.rooms;
    let c1 = content(ls1);
    let c2 = content(ls2);
    lemma_content_tubes(rooms, ls1);
    lemma_content_tubes(rooms, ls2);
    lemma_content_concat(head, ls1);
    lemma_content_concat(head, ls2);
    lemma_content_concat(head, c1);
    lemma_content_concat(head, c2);
    lemma_content_idempotent(ls1);
    lemma_content_idempotent(ls2);
    lemma_only_content_matters(head + ls1, head + c1);
    lemma_only_content_matters(head + ls2, head + c2);
    lemma_tube_lines_plain(head, c1, tubes_of(rooms, ls1), c2, tubes_of(rooms, ls2));
}

/// A room name as a room line accepts it: non-empty, made of ASCII letters, digits and `_`,
/// and not starting with `L`.
pub open spec fn name_ok(name: Seq<char>) -> bool {
    &&& name.len() > 0
    &&& first_invalid_name_char(name) is None
    &&& name[0] != 'L'
}

/// Every tube is counted alike in the lists of both of its rooms: room `j` appears in the
/// list of `i` as often as `i` in the list of `j`.
pub open spec fn counted_alike(links: Seq<Seq<usize>>) -> bool {
    forall|i: usize, j: usize|
        i < links.len() && j < links.len() ==> #[trigger] links[i as int].to_multiset().count(j)
            == #[trigger] links[j as int].to_multiset().count(i)
}

/// What every state of the parser keeps: acceptable room names and, once tubes are read,
/// tubes counted alike at both ends and at least one of them.
pub open spec fn parser_shape(m: ParserView) -> bool {
    &&& forall|i: int| 0 <= i < m.rooms.len() ==> name_ok(#[trigger] m.rooms[i].name)
    &&& m.state is Links ==> counted_alike(m.links) && exists|i: int|
        0 <= i < m.links.len() && #[trigger] m.links[i].len() > 0
}

/// What a parsed farm holds: distinct, acceptable room names; tubes counted alike at both
/// ends; at least one tube.
pub open spec fn farm_shape(farm: Farm) -> bool {
    &&& names_distinct(rooms_view(farm.rooms@))
    &&& forall|i: int| 0 <= i < farm.rooms.len() ==> name_ok(#[trigger] farm.rooms@[i].name@)
    &&& counted_alike(farm.graph())
    &&& exists|i: int| 0 <= i < farm.links.len() && #[trigger] farm.graph()[i].len() > 0
}

proof fn lemma_add_link_counts(links: Seq<Seq<usize>>, a: usize, b: usize)
    requires
        counted_alike(links),
        a < links.len(),
        b < links.len(),
    ensures
        counted_alike(add_link(links, a, b)),
        add_link(links, a, b).len() == links.len(),
        add_link(links, a, b)[a as int].len() > 0,
        forall|i: int| 0 <= i < links.len() ==> #[trigger] add_link(links, a, b)[i].len() >= links[i].len(),
{
    broadcast use vstd::seq_lib::group_to_multiset_ensures;
    broadcast use vstd::multiset::group_multiset_axioms;

    let l1 = links.update(a as int, links[a as int].push(b));
    let l2 = add_link(links, a, b);
    assert(l2 == l1.update(b as int, l1[b as int].push(a)));
    assert forall|i: usize, j: usize| i < links.len() && j < links.len() implies #[trigger] l2[i as int].to_multiset().count(j)
        == links[i as int].to_multiset().count(j) + (if i == a && j == b { 1int } else { 0int }) + (if i == b
        && j == a { 1int } else { 0int }) by {
        if i == a && i == b {
            assert(l2[i as int] == links[i as int].push(b).push(a));
        } else if i == a {
            assert(l2[i as int] == links[i as int].push(b));
        } else if i == b {
            assert(l2[i as int] == links[i as int].push(a));
        } else {
            assert(l2[i as int] == links[i as int]);
        }
    }
    assert forall|i: usize, j: usize| i < l2.len() && j < l2.len() implies #[trigger] l2[i as int].to_multiset().count(j)
        == #[trigger] l2[j as int].to_multiset().count(i) by {
        assert(links[i as int].to_multiset().count(j) == links[j as int].to_multiset().count(i));
        assert(l2[i as int].to_multiset().count(j) == links[i as int].to_multiset().count(j) + (if i == a && j
            == b { 1int } else { 0int }) + (if i == b && j == a { 1int } else { 0int }));
        assert(l2[j as int].to_multiset().count(i) == links[j as int].to_multiset().count(i) + (if j == a && i
            == b { 1int } else { 0int }) + (if j == b && i == a { 1int } else { 0int }));
    }
}

proof fn lemma_room_name_ok(line: Seq<char>, rooms: Seq<RoomView>)
    requires
        spec_parse_room(line, rooms) is Ok,
    ensures
        name_ok(spec_parse_room(line, rooms)->Ok_0.name),
{
    lemma_fields_nonempty_pieces(line);
    assert(fields(line).len() == 3);
    assert(fields(line)[0].len() > 0);
}

/// Reading a line keeps the shape of the parser.
proof fn lemma_step_shape(m: ParserView, raw: Seq<char>)
    requires
        m.wf(),
        parser_shape(m),
        spec_step(m, raw) is Ok,
    ensures
        parser_shape(spec_step(m, raw)->Ok_0),
{
    let line = trim(raw);
    let m2 = spec_step(m, raw)->Ok_0;
    if !is_comment(line) {
        match m.state {
            ParsingState::Rooms => {
                if line != start_command() && line != end_command() && !(line.len() >= 2 && line[0] == '#'
                    && line[1] == '#') {
                    if spec_parse_room(line, m.rooms) is Ok {
                        lemma_room_name_ok(line, m.rooms);
                        assert forall|i: int| 0 <= i < m2.rooms.len() implies name_ok(#[trigger] m2.rooms[i].name) by {
                            if i < m.rooms.len() {
                                assert(m2.rooms[i] == m.rooms[i]);
                            }
                        }
                    } else {
                        let (a, b) = spec_parse_link(line, m.rooms)->Ok_0;
                        let empty = Seq::new(m.rooms.len(), |i: int| Seq::<usize>::empty());
                        assert(counted_alike(empty)) by {
                            assert forall|i: usize, j: usize| i < empty.len() && j < empty.len() implies #[trigger] empty[i as int].to_multiset().count(j)
                                == #[trigger] empty[j as int].to_multiset().count(i) by {
                                assert(empty[i as int] =~= Seq::<usize>::empty());
                                assert(empty[j as int] =~= Seq::<usize>::empty());
                                broadcast use vstd::multiset::group_multiset_axioms;
                                broadcast use vstd::seq_lib::group_to_multiset_ensures;
                            }
                        }
                        lemma_add_link_counts(empty, a, b);
                        assert(m2.links[a as int].len() > 0);
                    }
                }
            },
            ParsingState::SpecialRoom(_) => {
                lemma_room_name_ok(line, m.rooms);
                assert forall|i: int| 0 <= i < m2.rooms.len() implies name_ok(#[trigger] m2.rooms[i].name) by {
                    if i < m.rooms.len() {
                        assert(m2.rooms[i] == m.rooms[i]);
                    }
                }
            },
            ParsingState::Links => {
                let (a, b) = spec_parse_link(line, m.rooms)->Ok_0;
                let i0 = choose|i: int| 0 <= i < m.links.len() && #[trigger] m.links[i].len() > 0;
                lemma_add_link_counts(m.links, a, b);
                assert(m2.links[i0].len() > 0);
            },
            _ => {},
        }
    }
}

proof fn lemma_farm_shape(m: ParserView, farm: Farm)
    requires
        m.wf(),
        parser_shape(m),
        spec_finish_error(m) is None,
        farm_of(m, farm),
    ensures
        farm_shape(farm),
{
    broadcast use vstd::seq_lib::group_to_multiset_ensures;

    assert(total_ordering(index_leq()));
    let g = farm.graph();
    assert(g.len() == m.links.len());
    assert forall|i: int| 0 <= i < farm.rooms.len() implies name_ok(#[trigger] farm.rooms@[i].name@) by {
        assert(rooms_view(farm.rooms@)[i] == m.rooms[i]);
        assert(rooms_view(farm.rooms@)[i] == farm.rooms@[i]@);
        assert(name_ok(m.rooms[i].name));
    }
    assert forall|i: int| 0 <= i < g.len() implies #[trigger] g[i].to_multiset() == m.links[i].to_multiset() by {
        m.links[i].lemma_sort_by_ensures(index_leq());
        assert(g[i] == m.links[i].sort_by(index_leq()));
    }
    assert forall|i: usize, j: usize| i < g.len() && j < g.len() implies #[trigger] g[i as int].to_multiset().count(j)
        == #[trigger] g[j as int].to_multiset().count(i) by {
        assert(g[i as int].to_multiset() == m.links[i as int].to_multiset());
        assert(g[j as int].to_multiset() == m.links[j as int].to_multiset());
    }
    let i0 = choose|i: int| 0 <= i < m.links.len() && #[trigger] m.links[i].len() > 0;
    assert(g[i0].to_multiset() == m.links[i0].to_multiset());
    assert(g[i0].to_multiset().len() == g[i0].len());
    assert(m.links[i0].to_multiset().len() == m.links[i0].len());
    assert(g[i0].len() > 0);
}

/// Law: a room line of three fields is accepted, with its name and coordinates, whenever the
/// name is non-empty, made of ASCII letters, digits and `_`, does not start with an
/// uppercase `L` and is not taken yet, and both coordinates are `i64` numbers.
pub proof fn lemma_room_line_accepted(line: Seq<char>, rooms: Seq<RoomView>)
    requires
        fields(line).len() == 3,
        fields(line)[0].len() > 0,
        forall|k: int| 0 <= k < fields(line)[0].len() ==> is_name_char(#[trigger] fields(line)[0][k]),
        fields(line)[0][0] != 'L',
        forall|i: int| 0 <= i < rooms.len() ==> #[trigger] rooms[i].name != fields(line)[0],
        parse_i64(fields(line)[1]) is Some,
        parse_i64(fields(line)[2]) is Some,
    ensures
        spec_parse_room(line, rooms) == Ok::<RoomView, ParseErrorView>(
            RoomView {
                name: fields(line)[0],
                x: parse_i64(fields(line)[1]).unwrap(),
                y: parse_i64(fields(line)[2]).unwrap(),
            },
        ),
{
    lemma_name_chars_accepted(fields(line)[0]);
}

/// Law: in the rooms part, a `##start` line is refused exactly when a start room has been
/// declared already, whatever the end room; otherwise the next room line declares the start
/// room.  The same holds of `##end` with the end room.
pub proof fn lemma_special_commands(m: ParserView, raw: Seq<char>)
    requires
        m.state == ParsingState::Rooms,
    ensures
        trim(raw) == start_command() ==> (spec_step(m, raw) is Err <==> m.start is Some),
        trim(raw) == start_command() && m.start is Some ==> spec_step(m, raw) == Err::<
            ParserView,
            ParseErrorView,
        >(ParseErrorView::MultipleStartRooms),
        trim(raw) == start_command() && m.start is None ==> spec_step(m, raw) == Ok::<
            ParserView,
            ParseErrorView,
        >(ParserView { state: ParsingState::SpecialRoom(SpecialRoom::Start), ..m }),
        trim(raw) == end_command() ==> (spec_step(m, raw) is Err <==> m.end is Some),
        trim(raw) == end_command() && m.end is Some ==> spec_step(m, raw) == Err::<
            ParserView,
            ParseErrorView,
        >(ParseErrorView::MultipleEndRooms),
        trim(raw) == end_command() && m.end is None ==> spec_step(m, raw) == Ok::<
            ParserView,
            ParseErrorView,
        >(ParserView { state: ParsingState::SpecialRoom(SpecialRoom::End), ..m }),
{
    if trim(raw) == start_command() {
        assert(trim(raw)[1] == '#');
        assert(trim(raw) != end_command()) by {
            assert(trim(raw)[2] != end_command()[2]);
        }
    }
    if trim(raw) == end_command() {
        assert(trim(raw)[1] == '#');
    }
}

/// Law: after a `##start` (or `##end`) line, a room line declares that room, the next one in
/// the list, as the start (or end) room, whatever the other special room.
pub proof fn lemma_special_room_declared(m: ParserView, raw: Seq<char>)
    requires
        m.state matches ParsingState::SpecialRoom(_),
        !is_comment(trim(raw)),
        spec_parse_room(trim(raw), m.rooms) is Ok,
    ensures
        spec_step(m, raw) is Ok,
        spec_step(m, raw)->Ok_0.rooms == m.rooms.push(spec_parse_room(trim(raw), m.rooms)->Ok_0),
        spec_step(m, raw)->Ok_0.state == ParsingState::Rooms,
        m.state == ParsingState::SpecialRoom(SpecialRoom::Start) ==> spec_step(m, raw)->Ok_0.start
            == Some(m.rooms.len() as usize) && spec_step(m, raw)->Ok_0.end == m.end,
        m.state == ParsingState::SpecialRoom(SpecialRoom::End) ==> spec_step(m, raw)->Ok_0.end
            == Some(m.rooms.len() as usize) && spec_step(m, raw)->Ok_0.start == m.start,
{
}

/// Law: the tube line `a-b`, written with the names of rooms `a` and `b`, reads as the tube
/// from `a` to `b`, in that order, when the names are distinct and acceptable.
pub proof fn lemma_tube_line_read(rooms: Seq<RoomView>, a: int, b: int)
    requires
        names_distinct(rooms),
        names_valid(rooms),
        0 <= a < rooms.len(),
        0 <= b < rooms.len(),
    ensures
        spec_parse_link(rooms[a].name + seq!['-'] + rooms[b].name, rooms) == Ok::<
            (usize, usize),
            ParseErrorView,
        >((a as usize, b as usize)),
{
    let x = rooms[a].name;
    let y = rooms[b].name;
    lemma_name_chars(x);
    lemma_name_chars(y);
    assert forall|k: int| 0 <= k < x.len() implies #[trigger] x[k] != '-' by {
        assert(is_name_char(x[k]));
    }
    assert forall|k: int| 0 <= k < y.len() implies #[trigger] y[k] != '-' by {
        assert(is_name_char(y[k]));
    }
    lemma_split_on_pair(x, y, '-');
    lemma_room_index(rooms, x, a);
    lemma_room_index(rooms, y, b);
}

} // verus!
