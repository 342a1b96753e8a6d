use vstd::prelude::*;

use crate::intel::{InformationPiece, IntelQuestion, Quadrant};
use crate::radar::{
    blocked, branches, candidates, cands_view, Coordinate, Direction, Move, Radar, TraceElement,
    TraceMoveError, MAX_TRACE_LEN,
};

verus! {

/// A key press, as far as the session distinguishes keys.
#[derive(Debug, Clone, Copy, PartialEq, Eq, Structural)]
pub enum Key {
    Esc,
    Backspace,
    Enter,
    Tab,
    Up,
    Down,
    Left,
    Right,
    Char(char),
    Other,
}

/// The kind of fact being entered for a truth/lie clue.
#[derive(Debug, Clone, Copy, PartialEq, Eq, Structural)]
pub enum PickTruthLieKind {
    Quadrant,
    Row,
    Column,
}

/// The kind of a fact.
pub open spec fn kind_of(piece: InformationPiece) -> PickTruthLieKind {
    match piece {
        InformationPiece::Quadrant(_) => PickTruthLieKind::Quadrant,
        InformationPiece::Row(_) => PickTruthLieKind::Row,
        InformationPiece::Column(_) => PickTruthLieKind::Column,
    }
}

impl PickTruthLieKind {
    pub fn from_piece(piece: InformationPiece) -> (r: PickTruthLieKind)
        ensures
            r == kind_of(piece),
    {
        match piece {
            InformationPiece::Quadrant(_) => PickTruthLieKind::Quadrant,
            InformationPiece::Row(_) => PickTruthLieKind::Row,
            InformationPiece::Column(_) => PickTruthLieKind::Column,
        }
    }
}

/// How far the entry of a truth/lie clue has come; `data` holds the digits typed so far.
#[derive(Debug)]
pub enum PickTruthLieProgress {
    Start,
    Info1Kind { kind: PickTruthLieKind, data: Vec<char> },
    Info1Information(InformationPiece),
    Info2Kind { info1: InformationPiece, kind: PickTruthLieKind, data: Vec<char> },
}

/// A clue-entry menu and its state.
#[derive(Debug)]
pub enum Submenu {
    IntelPickQuadrant { quadrant: Option<Quadrant> },
    IntelPickTruthLie(PickTruthLieProgress),
}

/// Whether `r` is the state one step back from `p`: one typed digit removed, or
/// the previous stage, or `None` from the start.
pub open spec fn progress_previous(p: PickTruthLieProgress, r: Option<PickTruthLieProgress>) -> bool {
    match p {
        PickTruthLieProgress::Start => r is None,
        PickTruthLieProgress::Info1Kind { kind, data } => if data@.len() == 0 {
            r == Some(PickTruthLieProgress::Start)
        } else {
            match r {
                Some(PickTruthLieProgress::Info1Kind { kind: k2, data: d2 }) => k2 == kind && d2@
                    == data@.drop_last(),
                _ => false,
            }
        },
        PickTruthLieProgress::Info1Information(piece) => match r {
            Some(PickTruthLieProgress::Info1Kind { kind: k2, data: d2 }) => k2 == kind_of(piece)
                && d2@.len() == 0,
            _ => false,
        },
        PickTruthLieProgress::Info2Kind { info1, kind, data } => if data@.len() == 0 {
            r == Some(PickTruthLieProgress::Info1Information(info1))
        } else {
            match r {
                Some(PickTruthLieProgress::Info2Kind { info1: i2, kind: k2, data: d2 }) => i2
                    == info1 && k2 == kind && d2@ == data@.drop_last(),
                _ => false,
            }
        },
    }
}

/// Whether `r` is the menu state one step back from `s`; `None` closes the menu.
pub open spec fn submenu_previous(s: Submenu, r: Option<Submenu>) -> bool {
    match s {
        Submenu::IntelPickQuadrant { quadrant: None } => r is None,
        Submenu::IntelPickQuadrant { quadrant: Some(_) } => r == Some(
            Submenu::IntelPickQuadrant { quadrant: None },
        ),
        Submenu::IntelPickTruthLie(p) => match r {
            None => progress_previous(p, None),
            Some(Submenu::IntelPickTruthLie(back)) => progress_previous(p, Some(back)),
            _ => false,
        },
    }
}

/// All but the last of `data`.
fn without_last(data: &Vec<char>) -> (r: Vec<char>)
    requires
        data@.len() > 0,
    ensures
        r@ == data@.drop_last(),
{
    let mut out: Vec<char> = Vec::new();
    let n = data.len() - 1;
    let mut i: usize = 0;
    while i < n
        invariant
            0 <= i <= n,
            n == data@.len() - 1,
            out@ == data@.take(i as int),
        decreases n - i,
    {
        out.push(data[i]);
        assert(data@.take(i + 1) =~= data@.take(i as int).push(data@[i as int]));
        i = i + 1;
    }
    assert(data@.take(i as int) =~= data@.drop_last());
    out
}

impl PickTruthLieProgress {
    pub fn previous(&self) -> (r: Option<PickTruthLieProgress>)
        ensures
            progress_previous(*self, r),
    {
        match self {
            PickTruthLieProgress::Start => None,
            PickTruthLieProgress::Info1Kind { kind, data } => {
                if data.len() == 0 {
                    Some(PickTruthLieProgress::Start)
                } else {
                    Some(PickTruthLieProgress::Info1Kind { kind: *kind, data: without_last(data) })
                }
            },
            PickTruthLieProgress::Info1Information(piece) => {
                Some(
                    PickTruthLieProgress::Info1Kind {
                        kind: PickTruthLieKind::from_piece(*piece),
                        data: Vec::new(),
                    },
                )
            },
            PickTruthLieProgress::Info2Kind { info1, kind, data } => {
                if data.len() == 0 {
                    Some(PickTruthLieProgress::Info1Information(*info1))
                } else {
                    Some(
                        PickTruthLieProgress::Info2Kind {
                            info1: *info1,
                            kind: *kind,
                            data: without_last(data),
                        },
                    )
                }
            },
        }
    }
}

impl Submenu {
    pub fn previous(&self) -> (r: Option<Submenu>)
        ensures
            submenu_previous(*self, r),
    {
        match self {
            Submenu::IntelPickQuadrant { quadrant: None } => None,
            Submenu::IntelPickQuadrant { quadrant: Some(_) } => {
                Some(Submenu::IntelPickQuadrant { quadrant: None })
            },
            Submenu::IntelPickTruthLie(progress) => match progress.previous() {
                Some(p) => Some(Submenu::IntelPickTruthLie(p)),
                None => None,
            },
        }
    }
}


/// The quadrant that a key names: `1` to `4`.
pub open spec fn quadrant_key(key: Key) -> Option<Quadrant> {
    match key {
        Key::Char('1') => Some(Quadrant::One),
        Key::Char('2') => Some(Quadrant::Two),
        Key::Char('3') => Some(Quadrant::Three),
        Key::Char('4') => Some(Quadrant::Four),
        _ => None,
    }
}

/// The kind of fact that a key names: `q`, `r` or `c`.
pub open spec fn kind_key(key: Key) -> Option<PickTruthLieKind> {
    match key {
        Key::Char('q') => Some(PickTruthLieKind::Quadrant),
        Key::Char('r') => Some(PickTruthLieKind::Row),
        Key::Char('c') => Some(PickTruthLieKind::Column),
        _ => None,
    }
}

/// The decimal digit that a key types.
pub open spec fn digit_key(key: Key) -> Option<char> {
    match key {
        Key::Char(c) => if '0' <= c <= '9' {
            Some(c)
        } else {
            None
        },
        _ => None,
    }
}

/// The column that a letter key names on a grid of side `size`: `a` is column 0.
pub open spec fn column_key(key: Key, size: u32) -> Option<u32> {
    match key {
        Key::Char(c) => if 'a' <= c && (c as int) - ('a' as int) < size {
            Some(((c as int) - ('a' as int)) as u32)
        } else {
            None
        },
        _ => None,
    }
}

/// Whether every character of `s` is a decimal digit.
pub open spec fn all_digits(s: Seq<char>) -> bool {
    forall|i: int| 0 <= i < s.len() ==> '0' <= #[trigger] s[i] <= '9'
}

/// The number that the decimal digits `s` write.
pub open spec fn digits_value(s: Seq<char>) -> int
    decreases s.len(),
{
    if s.len() == 0 {
        0
    } else {
        10 * digits_value(s.drop_last()) + ((s.last() as int) - ('0' as int))
    }
}

pub fn read_quadrant(key: Key) -> (r: Option<Quadrant>)
    ensures
        r == quadrant_key(key),
{
    match key {
        Key::Char('1') => Some(Quadrant::One),
        Key::Char('2') => Some(Quadrant::Two),
        Key::Char('3') => Some(Quadrant::Three),
        Key::Char('4') => Some(Quadrant::Four),
        _ => None,
    }
}

pub fn read_truth_lie_kind(key: Key) -> (r: Option<PickTruthLieKind>)
    ensures
        r == kind_key(key),
{
    match key {
        Key::Char('q') => Some(PickTruthLieKind::Quadrant),
        Key::Char('r') => Some(PickTruthLieKind::Row),
        Key::Char('c') => Some(PickTruthLieKind::Column),
        _ => None,
    }
}

pub fn read_digit(key: Key) -> (r: Option<char>)
    ensures
        r == digit_key(key),
{
    match key {
        Key::Char(c) => if '0' <= c && c <= '9' {
            Some(c)
        } else {
            None
        },
        _ => None,
    }
}

pub fn read_column(key: Key, size: u32) -> (r: Option<u32>)
    ensures
        r == column_key(key, size),
{
    match key {
        Key::Char(c) => {
            if c >= 'a' {
                let offset = (c as u32) - ('a' as u32);
                if offset < size {
                    return Some(offset);
                }
            }
            None
        },
        _ => None,
    }
}

proof fn lemma_digits_value_nonneg(s: Seq<char>)
    requires
        all_digits(s),
    ensures
        digits_value(s) >= 0,
    decreases s.len(),
{
    if s.len() > 0 {
        assert(all_digits(s.drop_last())) by {
            assert forall|i: int| 0 <= i < s.drop_last().len() implies '0' <= #[trigger] s.drop_last()[i] <= '9' by {
                assert(s.drop_last()[i] == s[i]);
            }
        }
        lemma_digits_value_nonneg(s.drop_last());
        assert(s.last() == s[s.len() - 1]);
    }
}

/// Reads the decimal number that `data` writes; `None` when it is empty or does
/// not fit in `u32`.
pub fn parse_number(data: &Vec<char>) -> (r: Option<u32>)
    requires
        all_digits(data@),
    ensures
        r is Some <==> (data@.len() > 0 && digits_value(data@) <= u32::MAX),
        r is Some ==> r->0 == digits_value(data@),
{
    if data.len() == 0 {
        return None;
    }
    let mut value: u32 = 0;
    let mut i: usize = 0;
    while i < data.len()
        invariant
            0 <= i <= data@.len(),
            all_digits(data@),
            value == digits_value(data@.take(i as int)),
        decreases data@.len() - i,
    {
        let ghost pre = data@.take(i as int);
        let ghost next = data@.take(i + 1);
        assert(next.drop_last() =~= pre);
        assert(next.last() == data@[i as int]);
        let d = (data[i] as u32) - ('0' as u32);
        match value.checked_mul(10) {
            Some(tens) => match tens.checked_add(d) {
                Some(v) => {
                    value = v;
                },
                None => {
                    proof {
                        lemma_prefix_bound(data@, i + 1);
                    }
                    return None;
                },
            },
            None => {
                proof {
                    lemma_prefix_bound(data@, i + 1);
                }
                return None;
            },
        }
        i = i + 1;
    }
    assert(data@.take(data@.len() as int) =~= data@);
    Some(value)
}

/// A longer run of digits never writes a smaller number.
proof fn lemma_prefix_bound(s: Seq<char>, k: int)
    requires
        all_digits(s),
        0 <= k <= s.len(),
    ensures
        digits_value(s.take(k)) <= digits_value(s),
    decreases s.len() - k,
{
    if k < s.len() {
        lemma_prefix_bound(s, k + 1);
        let a = s.take(k + 1);
        assert(a.drop_last() =~= s.take(k));
        assert(a.last() == s[k]);
        assert(all_digits(s.take(k))) by {
            assert forall|i: int| 0 <= i < s.take(k).len() implies '0' <= #[trigger] s.take(k)[i] <= '9' by {
                assert(s.take(k)[i] == s[i]);
            }
        }
        lemma_digits_value_nonneg(s.take(k));
    } else {
        assert(s.take(k) =~= s);
    }
}


/// What a key press does to an open clue menu.
#[derive(Debug)]
pub enum SubmenuResult {
    /// Nothing changes.
    Stay,
    /// The menu moves to another state.
    Goto(Submenu),
    /// The clue is complete; the menu closes.
    Finish(IntelQuestion),
}

/// The row a typed number names on a grid of side `size`: rows are typed from 1.
pub open spec fn typed_row(data: Seq<char>, size: u32) -> Option<u32> {
    if data.len() > 0 && 1 <= digits_value(data) <= size {
        Some((digits_value(data) - 1) as u32)
    } else {
        None
    }
}

/// The fact that a key gives for a quadrant or column entry.
pub open spec fn piece_key(key: Key, kind: PickTruthLieKind, size: u32) -> Option<InformationPiece> {
    match kind {
        PickTruthLieKind::Quadrant => match quadrant_key(key) {
            Some(q) => Some(InformationPiece::Quadrant(q)),
            None => None,
        },
        PickTruthLieKind::Column => match column_key(key, size) {
            Some(c) => Some(InformationPiece::Column(c)),
            None => None,
        },
        PickTruthLieKind::Row => None,
    }
}

/// Whether the typed digits of every truth/lie stage are decimal digits.
pub open spec fn submenu_wf(s: Submenu) -> bool {
    match s {
        Submenu::IntelPickTruthLie(PickTruthLieProgress::Info1Kind { data, .. }) => all_digits(
            data@,
        ),
        Submenu::IntelPickTruthLie(PickTruthLieProgress::Info2Kind { data, .. }) => all_digits(
            data@,
        ),
        _ => true,
    }
}

/// Whether `r` is the effect of `key` on the open menu `s` on a grid of side `size`.
pub open spec fn submenu_step(s: Submenu, key: Key, size: u32, r: SubmenuResult) -> bool {
    match s {
        Submenu::IntelPickQuadrant { quadrant: None } => r == SubmenuResult::Goto(
            Submenu::IntelPickQuadrant { quadrant: quadrant_key(key) },
        ),
        Submenu::IntelPickQuadrant { quadrant: Some(q) } => r == match key {
            Key::Char('y') => SubmenuResult::Finish(
                IntelQuestion::InQuadrant { quadrant: q, answer: true },
            ),
            Key::Char('n') => SubmenuResult::Finish(
                IntelQuestion::InQuadrant { quadrant: q, answer: false },
            ),
            _ => SubmenuResult::Stay,
        },
        Submenu::IntelPickTruthLie(p) => match p {
            PickTruthLieProgress::Start => match kind_key(key) {
                Some(kind) => match r {
                    SubmenuResult::Goto(
                        Submenu::IntelPickTruthLie(PickTruthLieProgress::Info1Kind { kind: k2, data }),
                    ) => k2 == kind && data@.len() == 0,
                    _ => false,
                },
                None => r == SubmenuResult::Stay,
            },
            PickTruthLieProgress::Info1Kind { kind, data } => if kind == PickTruthLieKind::Row {
                if key == Key::Enter {
                    match typed_row(data@, size) {
                        Some(row) => r == SubmenuResult::Goto(
                            Submenu::IntelPickTruthLie(
                                PickTruthLieProgress::Info1Information(InformationPiece::Row(row)),
                            ),
                        ),
                        None => r == SubmenuResult::Stay,
                    }
                } else {
                    match digit_key(key) {
                        Some(d) => match r {
                            SubmenuResult::Goto(
                                Submenu::IntelPickTruthLie(
                                    PickTruthLieProgress::Info1Kind { kind: k2, data: d2 },
                                ),
                            ) => k2 == kind && d2@ == data@.push(d),
                            _ => false,
                        },
                        None => r == SubmenuResult::Stay,
                    }
                }
            } else {
                match piece_key(key, kind, size) {
                    Some(info) => r == SubmenuResult::Goto(
                        Submenu::IntelPickTruthLie(PickTruthLieProgress::Info1Information(info)),
                    ),
                    None => r == SubmenuResult::Stay,
                }
            },
            PickTruthLieProgress::Info1Information(info1) => match kind_key(key) {
                Some(kind) => match r {
                    SubmenuResult::Goto(
                        Submenu::IntelPickTruthLie(
                            PickTruthLieProgress::Info2Kind { info1: i2, kind: k2, data },
                        ),
                    ) => i2 == info1 && k2 == kind && data@.len() == 0,
                    _ => false,
                },
                None => r == SubmenuResult::Stay,
            },
            PickTruthLieProgress::Info2Kind { info1, kind, data } => if kind
                == PickTruthLieKind::Row {
                if key == Key::Enter {
                    match typed_row(data@, size) {
                        Some(row) => r == SubmenuResult::Finish(
                            IntelQuestion::TruthLie { info1, info2: InformationPiece::Row(row) },
                        ),
                        None => r == SubmenuResult::Stay,
                    }
                } else {
                    match digit_key(key) {
                        Some(d) => match r {
                            SubmenuResult::Goto(
                                Submenu::IntelPickTruthLie(
                                    PickTruthLieProgress::Info2Kind { info1: i2, kind: k2, data: d2 },
                                ),
                            ) => i2 == info1 && k2 == kind && d2@ == data@.push(d),
                            _ => false,
                        },
                        None => r == SubmenuResult::Stay,
                    }
                }
            } else {
                match piece_key(key, kind, size) {
                    Some(info2) => r == SubmenuResult::Finish(
                        IntelQuestion::TruthLie { info1, info2 },
                    ),
                    None => r == SubmenuResult::Stay,
                }
            },
        },
    }
}

/// A copy of `data` with `d` appended.
fn with_digit(data: &Vec<char>, d: char) -> (r: Vec<char>)
    ensures
        r@ == data@.push(d),
{
    let mut out: Vec<char> = Vec::new();
    let mut i: usize = 0;
    while i < data.len()
        invariant
            0 <= i <= data@.len(),
            out@ == data@.take(i as int),
        decreases data@.len() - i,
    {
        out.push(data[i]);
        assert(data@.take(i + 1) =~= data@.take(i as int).push(data@[i as int]));
        i = i + 1;
    }
    assert(data@.take(data@.len() as int) =~= data@);
    out.push(d);
    out
}

/// The row typed so far, if it names one on a grid of side `size`.
fn read_row(data: &Vec<char>, size: u32) -> (r: Option<u32>)
    requires
        all_digits(data@),
    ensures
        r == typed_row(data@, size),
{
    match parse_number(data) {
        Some(row) => if 1 <= row && row <= size {
            Some(row - 1)
        } else {
            None
        },
        None => None,
    }
}

pub fn read_information_piece(key: Key, kind: PickTruthLieKind, size: u32) -> (r: Option<
    InformationPiece,
>)
    ensures
        r == piece_key(key, kind, size),
{
    match kind {
        PickTruthLieKind::Quadrant => match read_quadrant(key) {
            Some(q) => Some(InformationPiece::Quadrant(q)),
            None => None,
        },
        PickTruthLieKind::Column => match read_column(key, size) {
            Some(c) => Some(InformationPiece::Column(c)),
            None => None,
        },
        PickTruthLieKind::Row => None,
    }
}

/// The effect of `key` on the open menu `s` on a grid of side `size`.
pub fn submenu_event(s: &Submenu, key: Key, size: u32) -> (r: SubmenuResult)
    requires
        submenu_wf(*s),
    ensures
        submenu_step(*s, key, size, r),
        r matches SubmenuResult::Goto(n) ==> submenu_wf(n),
{
    match s {
        Submenu::IntelPickQuadrant { quadrant: None } => {
            SubmenuResult::Goto(Submenu::IntelPickQuadrant { quadrant: read_quadrant(key) })
        },
        Submenu::IntelPickQuadrant { quadrant: Some(q) } => match key {
            Key::Char('y') => SubmenuResult::Finish(
                IntelQuestion::InQuadrant { quadrant: *q, answer: true },
            ),
            Key::Char('n') => SubmenuResult::Finish(
                IntelQuestion::InQuadrant { quadrant: *q, answer: false },
            ),
            _ => SubmenuResult::Stay,
        },
        Submenu::IntelPickTruthLie(p) => match p {
            PickTruthLieProgress::Start => match read_truth_lie_kind(key) {
                Some(kind) => SubmenuResult::Goto(
                    Submenu::IntelPickTruthLie(
                        PickTruthLieProgress::Info1Kind { kind, data: Vec::new() },
                    ),
                ),
                None => SubmenuResult::Stay,
            },
            PickTruthLieProgress::Info1Kind { kind, data } => {
                if *kind == PickTruthLieKind::Row {
                    if key == Key::Enter {
                        match read_row(data, size) {
                            Some(row) => SubmenuResult::Goto(
                                Submenu::IntelPickTruthLie(
                                    PickTruthLieProgress::Info1Information(
                                        InformationPiece::Row(row),
                                    ),
                                ),
                            ),
                            None => SubmenuResult::Stay,
                        }
                    } else {
                        match read_digit(key) {
                            Some(d) => SubmenuResult::Goto(
                                Submenu::IntelPickTruthLie(
                                    PickTruthLieProgress::Info1Kind {
                                        kind: *kind,
                                        data: with_digit(data, d),
                                    },
                                ),
                            ),
                            None => SubmenuResult::Stay,
                        }
                    }
                } else {
                    match read_information_piece(key, *kind, size) {
                        Some(info) => SubmenuResult::Goto(
                            Submenu::IntelPickTruthLie(PickTruthLieProgress::Info1Information(info)),
                        ),
                        None => SubmenuResult::Stay,
                    }
                }
            },
            PickTruthLieProgress::Info1Information(info1) => match read_truth_lie_kind(key) {
                Some(kind) => SubmenuResult::Goto(
                    Submenu::IntelPickTruthLie(
                        PickTruthLieProgress::Info2Kind { info1: *info1, kind, data: Vec::new() },
                    ),
                ),
                None => SubmenuResult::Stay,
            },
            PickTruthLieProgress::Info2Kind { info1, kind, data } => {
                if *kind == PickTruthLieKind::Row {
                    if key == Key::Enter {
                        match read_row(data, size) {
                            Some(row) => SubmenuResult::Finish(
                                IntelQuestion::TruthLie {
                                    info1: *info1,
                                    info2: InformationPiece::Row(row),
                                },
                            ),
                            None => SubmenuResult::Stay,
                        }
                    } else {
                        match read_digit(key) {
                            Some(d) => SubmenuResult::Goto(
                                Submenu::IntelPickTruthLie(
                                    PickTruthLieProgress::Info2Kind {
                                        info1: *info1,
                                        kind: *kind,
                                        data: with_digit(data, d),
                                    },
                                ),
                            ),
                            None => SubmenuResult::Stay,
                        }
                    }
                } else {
                    match read_information_piece(key, *kind, size) {
                        Some(info2) => SubmenuResult::Finish(
                            IntelQuestion::TruthLie { info1: *info1, info2 },
                        ),
                        None => SubmenuResult::Stay,
                    }
                }
            },
        },
    }
}


/// The direction an arrow key moves in.
pub open spec fn key_direction(key: Key) -> Option<Direction> {
    match key {
        Key::Up => Some(Direction::North),
        Key::Right => Some(Direction::East),
        Key::Down => Some(Direction::South),
        Key::Left => Some(Direction::West),
        _ => None,
    }
}

/// The interactive session: the radar, the candidate paths on show, the open
/// clue menu and the last refused move.
#[derive(Debug)]
pub struct App {
    exit: bool,
    radar: Radar,
    possible_paths: Vec<Vec<Coordinate>>,
    show_path_index: Option<usize>,
    submenu: Option<Submenu>,
    error: Option<TraceMoveError>,
}

impl App {
    pub closed spec fn exit_state(&self) -> bool {
        self.exit
    }

    pub closed spec fn radar_state(&self) -> Radar {
        self.radar
    }

    pub closed spec fn paths_state(&self) -> Seq<Vec<Coordinate>> {
        self.possible_paths@
    }

    pub closed spec fn index_state(&self) -> Option<usize> {
        self.show_path_index
    }

    pub closed spec fn menu_state(&self) -> Option<Submenu> {
        self.submenu
    }

    pub closed spec fn error_state(&self) -> Option<TraceMoveError> {
        self.error
    }

    /// The paths on show are the radar's candidates, the index points into them
    /// (none when there are none), and an open menu holds only digits as typed data.
    pub open spec fn wf(&self) -> bool {
        &&& self.radar_state().log().len() <= MAX_TRACE_LEN
        &&& cands_view(self.paths_state()) == candidates(
            self.radar_state().board(),
            self.radar_state().log(),
        )
        &&& match self.index_state() {
            Some(i) => i < self.paths_state().len(),
            None => self.paths_state().len() == 0,
        }
        &&& match self.menu_state() {
            Some(s) => submenu_wf(s),
            None => true,
        }
    }

    pub fn new(radar: Radar) -> (r: App)
        requires
            radar.log().len() <= MAX_TRACE_LEN,
        ensures
            r.wf(),
            r.radar_state() == radar,
            !r.exit_state(),
            r.menu_state() is None,
            r.error_state() is None,
    {
        let mut this = App {
            exit: false,
            radar,
            possible_paths: Vec::new(),
            show_path_index: None,
            submenu: None,
            error: None,
        };
        this.update_possible_paths();
        this
    }

    fn update_possible_paths(&mut self)
        requires
            old(self).radar.log().len() <= MAX_TRACE_LEN,
        ensures
            final(self).radar == old(self).radar,
            final(self).exit == old(self).exit,
            final(self).submenu == old(self).submenu,
            final(self).error == old(self).error,
            cands_view(final(self).possible_paths@) == candidates(
                final(self).radar.board(),
                final(self).radar.log(),
            ),
            final(self).show_path_index == if final(self).possible_paths@.len() == 0 {
                None::<usize>
            } else {
                Some(0usize)
            },
    {
        self.possible_paths = self.radar.get_possible_paths();
        if self.possible_paths.len() == 0 {
            self.show_path_index = None;
        } else {
            self.show_path_index = Some(0);
        }
    }

    pub fn should_exit(&self) -> (r: bool)
        ensures
            r == self.exit_state(),
    {
        self.exit
    }

    pub fn radar(&self) -> (r: &Radar)
        ensures
            *r == self.radar_state(),
    {
        &self.radar
    }

    pub fn possible_paths(&self) -> (r: &Vec<Vec<Coordinate>>)
        ensures
            r@ == self.paths_state(),
    {
        &self.possible_paths
    }

    pub fn show_path_index(&self) -> (r: Option<usize>)
        ensures
            r == self.index_state(),
    {
        self.show_path_index
    }

    pub fn submenu(&self) -> (r: &Option<Submenu>)
        ensures
            *r == self.menu_state(),
    {
        &self.submenu
    }

    pub fn error(&self) -> (r: Option<TraceMoveError>)
        ensures
            r == self.error_state(),
    {
        self.error
    }
}


/// Whether `new` is `old` after `key` with no menu open: arrows and `d` log a
/// move (while the log has room), Backspace undoes, `q` and `s` open a clue
/// menu, Tab shows the next path.
pub open spec fn main_key_effect(old: App, key: Key, new: App) -> bool {
    let log = old.radar_state().log();
    let room = log.len() < MAX_TRACE_LEN;
    &&& new.radar_state().board() == old.radar_state().board()
    &&& match key_direction(key) {
        Some(d) => if !room {
            new.radar_state().log() == log && new.error_state() == old.error_state()
        } else if forall|j: int| 0 <= j < branches(log).len() ==> blocked(#[trigger] branches(log)[j], d) {
            new.radar_state().log() == log && new.error_state() == Some(TraceMoveError::SelfIntersect)
        } else {
            new.radar_state().log() == log.push(TraceElement::Move(Move::Directed(d)))
                && new.error_state() is None
        },
        None => match key {
            Key::Backspace => new.radar_state().log() == (if log.len() > 0 {
                log.drop_last()
            } else {
                log
            }) && new.error_state() == old.error_state(),
            Key::Char('d') => if room {
                new.radar_state().log() == log.push(TraceElement::Move(Move::Dash))
                    && new.error_state() is None
            } else {
                new.radar_state().log() == log && new.error_state() == old.error_state()
            },
            _ => new.radar_state().log() == log && new.error_state() == old.error_state(),
        },
    }
    &&& new.menu_state() == match key {
        Key::Char('q') => Some(Submenu::IntelPickQuadrant { quadrant: None }),
        Key::Char('s') => Some(Submenu::IntelPickTruthLie(PickTruthLieProgress::Start)),
        _ => None,
    }
    &&& key == Key::Tab ==> new.index_state() == match old.index_state() {
        Some(i) => Some(((i + 1) % (old.paths_state().len() as int)) as usize),
        None => None,
    }
}

/// Whether `new` is `old` after `key` reached the open menu `s`: the menu moves
/// on, or closes and logs the finished clue (while the log has room).
pub open spec fn menu_key_effect(old: App, s: Submenu, key: Key, new: App) -> bool {
    let log = old.radar_state().log();
    &&& new.radar_state().board() == old.radar_state().board()
    &&& new.error_state() == old.error_state()
    &&& exists|r: SubmenuResult|
        #![trigger submenu_step(s, key, old.radar_state().board().side() as u32, r)]
        submenu_step(s, key, old.radar_state().board().side() as u32, r) && match r {
            SubmenuResult::Stay => new.menu_state() == old.menu_state() && new.radar_state().log()
                == log,
            SubmenuResult::Goto(n) => new.menu_state() == Some(n) && new.radar_state().log()
                == log,
            SubmenuResult::Finish(q) => new.menu_state() is None && new.radar_state().log() == if log.len()
                < MAX_TRACE_LEN {
                log.push(TraceElement::Intel(q))
            } else {
                log
            },
        }
}

impl App {
    /// Acts on one key press: Esc quits; Backspace first clears a shown error,
    /// then steps back in an open menu; otherwise the key goes to the open menu
    /// or to the main controls.
    pub fn handle_key_event(&mut self, key: Key)
        requires
            old(self).wf(),
        ensures
            final(self).wf(),
            final(self).radar_state().board() == old(self).radar_state().board(),
            final(self).exit_state() == (old(self).exit_state() || key == Key::Esc),
            key == Key::Esc ==> final(self).radar_state() == old(self).radar_state()
                && final(self).menu_state() == old(self).menu_state(),
            key == Key::Backspace && old(self).error_state() is Some ==> final(self).error_state() is None
                && final(self).radar_state() == old(self).radar_state()
                && final(self).menu_state() == old(self).menu_state(),
            key == Key::Backspace && old(self).error_state() is None && old(self).menu_state() is Some
                ==> submenu_previous(old(self).menu_state()->0, final(self).menu_state())
                && final(self).radar_state() == old(self).radar_state(),
            key != Key::Esc && !(key == Key::Backspace && old(self).error_state() is Some)
                && old(self).menu_state() is None ==> main_key_effect(*old(self), key, *final(self)),
            key != Key::Esc && key != Key::Backspace && old(self).menu_state() is Some
                ==> menu_key_effect(*old(self), old(self).menu_state()->0, key, *final(self)),
    {
        if key == Key::Esc {
            self.exit = true;
            return;
        }
        if key == Key::Backspace {
            if self.error.is_some() {
                self.error = None;
                return;
            }
            let prev = match &self.submenu {
                Some(s) => Some(s.previous()),
                None => None,
            };
            match prev {
                Some(p) => {
                    proof {
                        lemma_previous_wf(self.submenu->0, p);
                    }
                    self.submenu = p;
                    return;
                },
                None => {},
            }
        }
        let size = self.radar.map().size();
        let step = match &self.submenu {
            Some(s) => Some(submenu_event(s, key, size)),
            None => None,
        };
        match step {
            Some(r) => {
                let ghost before = *self;
                let ghost result = r;
                assert(submenu_step(before.submenu->0, key, size, result));
                match r {
                    SubmenuResult::Stay => {},
                    SubmenuResult::Goto(n) => {
                        self.submenu = Some(n);
                    },
                    SubmenuResult::Finish(q) => {
                        if self.radar.trace().len() < MAX_TRACE_LEN {
                            self.radar.add_intel(q);
                        }
                        self.submenu = None;
                        self.update_possible_paths();
                    },
                }
                assert(size == before.radar_state().board().side() as u32);
                assert(menu_key_effect(before, before.submenu->0, key, *self));
            },
            None => self.handle_main_key(key),
        }
    }

    fn handle_main_key(&mut self, key: Key)
        requires
            old(self).wf(),
            old(self).menu_state() is None,
        ensures
            final(self).wf(),
            final(self).exit == old(self).exit,
            main_key_effect(*old(self), key, *final(self)),
    {
        let room = self.radar.trace().len() < MAX_TRACE_LEN;
        match key {
            Key::Backspace => {
                self.radar.undo_trace();
                self.update_possible_paths();
            },
            Key::Up => self.directed(Direction::North),
            Key::Down => self.directed(Direction::South),
            Key::Left => self.directed(Direction::West),
            Key::Right => self.directed(Direction::East),
            Key::Char('d') => {
                if room {
                    match self.radar.register_move(Move::Dash) {
                        Ok(()) => {
                            self.error = None;
                        },
                        Err(e) => {
                            self.error = Some(e);
                        },
                    }
                    self.update_possible_paths();
                }
            },
            Key::Char('q') => {
                self.submenu = Some(Submenu::IntelPickQuadrant { quadrant: None });
            },
            Key::Char('s') => {
                self.submenu = Some(Submenu::IntelPickTruthLie(PickTruthLieProgress::Start));
            },
            Key::Tab => {
                match self.show_path_index {
                    Some(index) => {
                        let n = self.possible_paths.len();
                        assert(index < n);
                        self.show_path_index = Some((index + 1) % n);
                    },
                    None => {},
                }
            },
            _ => {},
        }
    }

    fn directed(&mut self, d: Direction)
        requires
            old(self).wf(),
            old(self).menu_state() is None,
        ensures
            final(self).wf(),
            final(self).exit == old(self).exit,
            final(self).submenu == old(self).submenu,
            final(self).radar.board() == old(self).radar.board(),
            old(self).radar.log().len() >= MAX_TRACE_LEN ==> final(self).radar.log() == old(
                self,
            ).radar.log() && final(self).error == old(self).error,
            old(self).radar.log().len() < MAX_TRACE_LEN ==> if forall|j: int|
                0 <= j < branches(old(self).radar.log()).len() ==> blocked(
                    #[trigger] branches(old(self).radar.log())[j],
                    d,
                ) {
                final(self).radar.log() == old(self).radar.log() && final(self).error == Some(
                    TraceMoveError::SelfIntersect,
                )
            } else {
                final(self).radar.log() == old(self).radar.log().push(
                    TraceElement::Move(Move::Directed(d)),
                ) && final(self).error is None
            },
    {
        if self.radar.trace().len() < MAX_TRACE_LEN {
            match self.radar.register_move(Move::Directed(d)) {
                Ok(()) => {
                    self.error = None;
                },
                Err(e) => {
                    self.error = Some(e);
                },
            }
            self.update_possible_paths();
        }
    }
}

proof fn lemma_previous_wf(s: Submenu, r: Option<Submenu>)
    requires
        submenu_wf(s),
        submenu_previous(s, r),
    ensures
        match r {
            Some(n) => submenu_wf(n),
            None => true,
        },
{
    match s {
        Submenu::IntelPickTruthLie(PickTruthLieProgress::Info1Kind { data, .. }) => {
            if data@.len() > 0 {
                assert forall|i: int| 0 <= i < data@.drop_last().len() implies '0'
                    <= #[trigger] data@.drop_last()[i] <= '9' by {
                    assert(data@.drop_last()[i] == data@[i]);
                }
            }
        },
        Submenu::IntelPickTruthLie(PickTruthLieProgress::Info2Kind { data, .. }) => {
            if data@.len() > 0 {
                assert forall|i: int| 0 <= i < data@.drop_last().len() implies '0'
                    <= #[trigger] data@.drop_last()[i] <= '9' by {
                    assert(data@.drop_last()[i] == data@[i]);
                }
            }
        },
        _ => {},
    }
}

} // verus!
