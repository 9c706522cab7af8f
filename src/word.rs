use vstd::prelude::*;
use crate::text::{find_char, first_index, parse_decimal, parse_usize, same_text};

verus! {

/// The direction in which a slot is read, starting from its anchor cell.
#[derive(PartialEq, Eq, Structural, Clone, Copy, Debug)]
pub enum Orientation {
    Right,
    Left,
    Down,
    Up,
}

impl Orientation {
    pub open spec fn spec_is_horizontal(self) -> bool {
        self is Right || self is Left
    }

    pub open spec fn spec_is_vertical(self) -> bool {
        self is Down || self is Up
    }

    pub open spec fn spec_is_reversed(self) -> bool {
        self is Left || self is Up
    }

    pub open spec fn spec_parallel(self, other: Orientation) -> bool {
        (self.spec_is_horizontal() && other.spec_is_horizontal()) || (self.spec_is_vertical()
            && other.spec_is_vertical())
    }

    pub fn is_horizontal(&self) -> (r: bool)
        ensures
            r == self.spec_is_horizontal(),
    {
        match self {
            Orientation::Right | Orientation::Left => true,
            _ => false,
        }
    }

    pub fn is_vertical(&self) -> (r: bool)
        ensures
            r == self.spec_is_vertical(),
    {
        match self {
            Orientation::Down | Orientation::Up => true,
            _ => false,
        }
    }

    pub fn is_reversed(&self) -> (r: bool)
        ensures
            r == self.spec_is_reversed(),
    {
        match self {
            Orientation::Left | Orientation::Up => true,
            _ => false,
        }
    }

    pub fn same_or_opposite_direction(&self, other: &Orientation) -> (r: bool)
        ensures
            r == self.spec_parallel(*other),
    {
        (self.is_horizontal() && other.is_horizontal()) || (self.is_vertical()
            && other.is_vertical())
    }
}


/// The orientation that a one-letter code names.
pub open spec fn orientation_of(s: Seq<char>) -> Option<Orientation> {
    if s == seq!['R'] {
        Some(Orientation::Right)
    } else if s == seq!['L'] {
        Some(Orientation::Left)
    } else if s == seq!['D'] {
        Some(Orientation::Down)
    } else if s == seq!['U'] {
        Some(Orientation::Up)
    } else {
        None
    }
}

/// The text before the first `'='`, or all of it.
pub open spec fn before_eq(s: Seq<char>) -> Seq<char> {
    if first_index(s, '=') >= 0 { s.subrange(0, first_index(s, '=')) } else { s }
}

/// The value after the first `'='`, if there is one.
pub open spec fn value_after_eq(s: Seq<char>) -> Seq<Seq<char>> {
    if first_index(s, '=') >= 0 {
        seq![s.subrange(first_index(s, '=') + 1, s.len() as int)]
    } else {
        Seq::empty()
    }
}

/// The field that holds the length: the fourth, less any value when no key follows.
pub open spec fn length_field(ps: Seq<Seq<char>>) -> Seq<char> {
    if ps.len() > 4 { ps[3] } else { before_eq(ps[3]) }
}

/// The field that may end in `=value`: the key when there is one, else the length.
pub open spec fn value_field(ps: Seq<Seq<char>>) -> Seq<char> {
    if ps.len() > 4 { ps[4] } else { ps[3] }
}

/// A slot definition: orientation, x, y, length, then optionally a key; the
/// last of these may carry a fixed value after `'='`.
pub open spec fn parts_ok(ps: Seq<Seq<char>>) -> bool {
    &&& ps.len() >= 4
    &&& orientation_of(ps[0]) is Some
    &&& parse_decimal(ps[1]) is Some
    &&& parse_decimal(ps[2]) is Some
    &&& parse_decimal(length_field(ps)) is Some
}

/// The orientation that a one-letter code names.
fn orientation_code(s: &str) -> (r: Option<Orientation>)
    ensures
        r == orientation_of(s@),
{
    proof {
        reveal_strlit("R");
        reveal_strlit("L");
        reveal_strlit("D");
        reveal_strlit("U");
        assert("R"@ =~= seq!['R']);
        assert("L"@ =~= seq!['L']);
        assert("D"@ =~= seq!['D']);
        assert("U"@ =~= seq!['U']);
    }
    if same_text(s, "R") {
        Some(Orientation::Right)
    } else if same_text(s, "L") {
        Some(Orientation::Left)
    } else if same_text(s, "D") {
        Some(Orientation::Down)
    } else if same_text(s, "U") {
        Some(Orientation::Up)
    } else {
        None
    }
}

/// `w` is the slot that the definition `ps` describes.
pub open spec fn read_as(w: Word, ps: Seq<Seq<char>>) -> bool {
    &&& parts_ok(ps)
    &&& Some(w.o) == orientation_of(ps[0])
    &&& Some(w.x) == parse_decimal(ps[1])
    &&& Some(w.y) == parse_decimal(ps[2])
    &&& Some(w.length) == parse_decimal(length_field(ps))
    &&& w.key_view() == if ps.len() > 4 { Some(before_eq(ps[4])) } else { None }
    &&& w.cands() == value_after_eq(value_field(ps))
    &&& w.placed == (w.cands().len() > 0)
}

/// A word slot: where it lies on the grid, and what may still be written in it.
///
/// `placed` marks a slot whose value is fixed; such a slot holds that value as
/// its one candidate.
#[derive(Clone, Debug)]
pub struct Word {
    pub o: Orientation,
    pub x: usize,
    pub y: usize,
    pub length: usize,
    pub key: Option<String>,
    pub candidates: Vec<String>,
    pub placed: bool,
}

/// The cell that index `i` of a slot anchored at `(x, y)` covers.
pub open spec fn cell_at(o: Orientation, x: int, y: int, i: int) -> (int, int) {
    match o {
        Orientation::Right => (x + i, y),
        Orientation::Left => (x - i, y),
        Orientation::Down => (x, y + i),
        Orientation::Up => (x, y - i),
    }
}

impl Word {
    /// The slot lies on the grid: it has at least one cell and every cell has
    /// coordinates that fit in a `usize`.
    pub open spec fn wf_geometry(&self) -> bool {
        &&& self.length >= 1
        &&& self.x < usize::MAX
        &&& self.y < usize::MAX
        &&& (self.o is Left ==> self.length <= self.x + 1)
        &&& (self.o is Up ==> self.length <= self.y + 1)
        &&& (self.o is Right ==> self.x + self.length <= usize::MAX)
        &&& (self.o is Down ==> self.y + self.length <= usize::MAX)
    }

    /// The candidates, as sequences of characters.
    pub open spec fn cands(&self) -> Seq<Seq<char>> {
        self.candidates@.map_values(|c: String| c@)
    }

    /// The key, as a sequence of characters.
    pub open spec fn key_view(&self) -> Option<Seq<char>> {
        match self.key {
            Some(k) => Some(k@),
            None => None,
        }
    }

    /// Every candidate has exactly as many characters as the slot has cells.
    pub open spec fn cands_fit(&self) -> bool {
        forall|j: int| 0 <= j < self.cands().len() ==> (#[trigger] self.cands()[j]).len() == self.length
    }

    /// A placed slot holds exactly one candidate.
    pub open spec fn placed_ok(&self) -> bool {
        self.placed ==> self.cands().len() == 1
    }

    /// The invariant that the solver keeps for every slot.
    pub open spec fn wf(&self) -> bool {
        self.wf_geometry() && self.cands_fit() && self.placed_ok()
    }

    /// Same position, orientation, length and key.
    pub open spec fn same_slot(&self, other: &Word) -> bool {
        &&& self.o == other.o
        &&& self.x == other.x
        &&& self.y == other.y
        &&& self.length == other.length
        &&& self.key_view() == other.key_view()
    }

    pub open spec fn spec_xmin(&self) -> int {
        if self.o is Left { self.x - self.length + 1 } else { self.x as int }
    }

    pub open spec fn spec_xmax(&self) -> int {
        if self.o is Right { self.x + self.length - 1 } else { self.x as int }
    }

    pub open spec fn spec_ymin(&self) -> int {
        if self.o is Up { self.y - self.length + 1 } else { self.y as int }
    }

    pub open spec fn spec_ymax(&self) -> int {
        if self.o is Down { self.y + self.length - 1 } else { self.y as int }
    }

    pub open spec fn spec_position_at(&self, i: int) -> (int, int) {
        cell_at(self.o, self.x as int, self.y as int, i)
    }

    pub open spec fn spec_contains(&self, x: int, y: int) -> bool {
        self.spec_xmin() <= x <= self.spec_xmax() && self.spec_ymin() <= y <= self.spec_ymax()
    }

    /// Two slots cross when they run across each other and each one's line
    /// passes through the other's bounding box.
    pub open spec fn spec_crosses(&self, w: &Word) -> bool {
        &&& !self.o.spec_parallel(w.o)
        &&& if self.o.spec_is_horizontal() {
            self.spec_xmin() <= w.spec_xmin() && self.spec_xmax() >= w.spec_xmax()
                && self.spec_ymin() >= w.spec_ymin() && self.spec_ymax() <= w.spec_ymax()
        } else {
            self.spec_xmin() >= w.spec_xmin() && self.spec_xmax() <= w.spec_xmax()
                && self.spec_ymin() <= w.spec_ymin() && self.spec_ymax() >= w.spec_ymax()
        }
    }

    /// Two slots conflict when they do not cross and yet come closer than one
    /// empty cell, unless they touch only at a corner or are parallel slots on
    /// one line.
    pub open spec fn spec_conflicts(&self, b: &Word) -> bool {
        let over = b.spec_ymax() < self.spec_ymin();
        let under = b.spec_ymin() > self.spec_ymax();
        let left = b.spec_xmax() < self.spec_xmin();
        let right = b.spec_xmin() > self.spec_xmax();
        let apart = b.spec_xmax() + 1 < self.spec_xmin() || b.spec_xmin() > self.spec_xmax() + 1
            || b.spec_ymax() + 1 < self.spec_ymin() || b.spec_ymin() > self.spec_ymax() + 1;
        let same_line = (self.o.spec_is_horizontal() && b.o.spec_is_horizontal() && self.y == b.y)
            || (self.o.spec_is_vertical() && b.o.spec_is_vertical() && self.x == b.x);
        !self.spec_crosses(b) && !((over || under) && (left || right)) && !apart && !same_line
    }

    pub fn xmin(&self) -> (r: usize)
        requires
            self.wf_geometry(),
        ensures
            r == self.spec_xmin(),
    {
        match self.o {
            Orientation::Left => self.x - (self.length - 1),
            _ => self.x,
        }
    }

    pub fn ymin(&self) -> (r: usize)
        requires
            self.wf_geometry(),
        ensures
            r == self.spec_ymin(),
    {
        match self.o {
            Orientation::Up => self.y - (self.length - 1),
            _ => self.y,
        }
    }

    pub fn xmax(&self) -> (r: usize)
        requires
            self.wf_geometry(),
        ensures
            r == self.spec_xmax(),
    {
        match self.o {
            Orientation::Right => self.x + (self.length - 1),
            _ => self.x,
        }
    }

    pub fn ymax(&self) -> (r: usize)
        requires
            self.wf_geometry(),
        ensures
            r == self.spec_ymax(),
    {
        match self.o {
            Orientation::Down => self.y + (self.length - 1),
            _ => self.y,
        }
    }

    pub fn position_at_index(&self, i: usize) -> (r: (usize, usize))
        requires
            self.wf_geometry(),
            i < self.length,
        ensures
            (r.0 as int, r.1 as int) == self.spec_position_at(i as int),
    {
        match self.o {
            Orientation::Right => (self.x + i, self.y),
            Orientation::Left => (self.x - i, self.y),
            Orientation::Down => (self.x, self.y + i),
            Orientation::Up => (self.x, self.y - i),
        }
    }

    pub fn position_in_word(&self, x: usize, y: usize) -> (r: bool)
        requires
            self.wf_geometry(),
        ensures
            r == self.spec_contains(x as int, y as int),
    {
        x >= self.xmin() && x <= self.xmax() && y >= self.ymin() && y <= self.ymax()
    }

    pub fn is_crossing(&self, word: &Word) -> (r: bool)
        requires
            self.wf_geometry(),
            word.wf_geometry(),
        ensures
            r == self.spec_crosses(word),
    {
        if self.o.same_or_opposite_direction(&word.o) {
            return false;
        }
        if self.o.is_horizontal() {
            self.xmin() <= word.xmin() && self.xmax() >= word.xmax() && self.ymin() >= word.ymin()
                && self.ymax() <= word.ymax()
        } else {
            self.xmin() >= word.xmin() && self.xmax() <= word.xmax() && self.ymin() <= word.ymin()
                && self.ymax() >= word.ymax()
        }
    }

    pub fn is_conflicting(&self, b: &Word) -> (r: bool)
        requires
            self.wf_geometry(),
            b.wf_geometry(),
        ensures
            r == self.spec_conflicts(b),
    {
        if self.is_crossing(b) {
            return false;
        }
        let (a_xmin, a_xmax) = (self.xmin(), self.xmax());
        let (a_ymin, a_ymax) = (self.ymin(), self.ymax());
        let (b_xmin, b_xmax) = (b.xmin(), b.xmax());
        let (b_ymin, b_ymax) = (b.ymin(), b.ymax());

        let b_is_over = b_ymax < a_ymin;
        let b_is_under = b_ymin > a_ymax;
        let b_is_left = b_xmax < a_xmin;
        let b_is_right = b_xmin > a_xmax;

        // Slots may touch at a corner.
        if (b_is_over || b_is_under) && (b_is_left || b_is_right) {
            return false;
        }
        // Otherwise at least one empty cell must lie between them.
        if (b_xmax < a_xmin && a_xmin - b_xmax > 1) || (b_xmin > a_xmax && b_xmin - a_xmax > 1)
            || (b_ymax < a_ymin && a_ymin - b_ymax > 1) || (b_ymin > a_ymax && b_ymin - a_ymax
            > 1) {
            return false;
        }
        // Parallel slots on one line form a single run.
        if self.o.is_horizontal() && b.o.is_horizontal() && self.y == b.y {
            return false;
        }
        if self.o.is_vertical() && b.o.is_vertical() && self.x == b.x {
            return false;
        }
        true
    }

    pub fn has_one_candidate(&self) -> (r: bool)
        ensures
            r == (self.cands().len() == 1),
    {
        self.candidates.len() == 1
    }

    pub fn has_candidates(&self) -> (r: bool)
        ensures
            r == (self.cands().len() > 0),
    {
        self.candidates.len() > 0
    }

    pub fn is_missing(&self) -> (r: bool)
        ensures
            r == (self.cands().len() == 0),
    {
        self.candidates.len() == 0
    }

    pub fn is_ambiguous(&self) -> (r: bool)
        ensures
            r == (self.cands().len() > 1),
    {
        self.candidates.len() > 1
    }

    /// A slot without a key is part of the solution phrase.
    pub fn is_solution(&self) -> (r: bool)
        ensures
            r == (self.key is None),
    {
        self.key.is_none()
    }

    /// Reads a slot from the fields of its definition.
    pub fn from_parts(parts: &[&str]) -> (r: Option<Word>)
        ensures
            match r {
                Some(w) => read_as(w, parts@.map_values(|p: &str| p@)),
                None => !parts_ok(parts@.map_values(|p: &str| p@)),
            },
    {
        let ghost ps = parts@.map_values(|p: &str| p@);
        if parts.len() < 4 {
            return None;
        }
        let o = match orientation_code(parts[0]) {
            Some(o) => o,
            None => return None,
        };
        let x = match parse_usize(parts[1]) {
            Some(v) => v,
            None => return None,
        };
        let y = match parse_usize(parts[2]) {
            Some(v) => v,
            None => return None,
        };
        let has_key = parts.len() > 4;
        let field = if has_key { parts[4] } else { parts[3] };
        assert(field@ == value_field(ps));
        let eq = find_char(field, '=');
        let flen = field.unicode_len();
        let (head, value) = match eq {
            Some(i) => (field.substring_char(0, i), Some(field.substring_char(i + 1, flen))),
            None => (field, None),
        };
        assert(head@ == before_eq(field@));
        let length = if has_key { parse_usize(parts[3]) } else { parse_usize(head) };
        let length = match length {
            Some(v) => v,
            None => return None,
        };
        let key = if has_key { Some(head.to_owned()) } else { None };
        let mut candidates: Vec<String> = Vec::new();
        if let Some(v) = value {
            candidates.push(v.to_owned());
        }
        let placed = candidates.len() > 0;
        let w = Word { o, x, y, length, key, candidates, placed };
        assert(w.cands() =~= value_after_eq(value_field(ps)));
        Some(w)
    }

    /// Whether the slot satisfies `wf`.
    pub fn is_well_formed(&self) -> (r: bool)
        ensures
            r == self.wf(),
    {
        if self.length < 1 || self.x == usize::MAX || self.y == usize::MAX {
            return false;
        }
        let fits = match self.o {
            Orientation::Left => self.length <= self.x + 1,
            Orientation::Up => self.length <= self.y + 1,
            Orientation::Right => self.length <= usize::MAX - self.x,
            Orientation::Down => self.length <= usize::MAX - self.y,
        };
        if !fits {
            return false;
        }
        if self.placed && self.candidates.len() != 1 {
            return false;
        }
        let mut j: usize = 0;
        while j < self.candidates.len()
            invariant
                j <= self.candidates@.len(),
                forall|k: int| 0 <= k < j ==> (#[trigger] self.cands()[k]).len() == self.length,
            decreases self.candidates@.len() - j,
        {
            if self.candidates[j].as_str().unicode_len() != self.length {
                assert(self.cands()[j as int] == self.candidates@[j as int]@);
                return false;
            }
            j = j + 1;
        }
        true
    }

    /// Fixes the slot: to `opt_word` where one is given, else to its one
    /// candidate.
    pub fn place(&mut self, opt_word: Option<String>)
        ensures
            final(self).same_slot(old(self)),
            final(self).placed,
            final(self).cands() == match opt_word {
                Some(w) => seq![w@],
                None => old(self).cands(),
            },
    {
        self.placed = true;
        if let Some(word) = opt_word {
            self.candidates.clear();
            self.candidates.push(word);
            assert(self.cands() =~= seq![word@]);
        }
    }

    /// Releases the slot and forgets its candidates.
    pub fn unplace(&mut self)
        ensures
            final(self).same_slot(old(self)),
            !final(self).placed,
            final(self).cands() == Seq::<Seq<char>>::empty(),
    {
        self.placed = false;
        self.candidates.clear();
        assert(self.cands() =~= Seq::<Seq<char>>::empty());
    }

    /// The character at index `ix` of a slot that holds one candidate.
    pub fn char_at(&self, ix: usize) -> (c: char)
        requires
            self.cands().len() == 1,
            ix < self.cands()[0].len(),
        ensures
            c == self.cands()[0][ix as int],
    {
        self.candidates[0].as_str().get_char(ix)
    }
}

/// Walks the cells of a slot in order, giving each cell with the slot's
/// letter there, or `'.'` where the slot is not placed.
pub struct WordIter<'a> {
    pub index: usize,
    pub word: &'a Word,
}

impl<'a> WordIter<'a> {
    pub fn new(word: &'a Word) -> (r: Self)
        ensures
            r.index == 0,
            r.word == word,
    {
        Self { index: 0, word: word }
    }

    /// The next cell, with its letter; `None` past the last cell.
    pub fn next(&mut self) -> (r: Option<(usize, usize, char)>)
        requires
            old(self).word.wf(),
        ensures
            final(self).word == old(self).word,
            old(self).index >= old(self).word.length ==> r is None && final(self).index == old(self).index,
            old(self).index < old(self).word.length ==> {
                &&& final(self).index == old(self).index + 1
                &&& r matches Some(t) && (t.0 as int, t.1 as int) == old(self).word.spec_position_at(old(self).index as int)
                    && t.2 == if old(self).word.placed { old(self).word.cands()[0][old(self).index as int] } else { '.' }
            },
    {
        if self.index >= self.word.length {
            return None;
        }
        let i = self.index;
        let c = if self.word.placed { self.word.char_at(i) } else { '.' };
        let (x, y) = self.word.position_at_index(i);
        self.index = i + 1;
        Some((x, y, c))
    }
}

impl Word {
    /// Walks the cells of the slot.
    pub fn iter(&self) -> (r: WordIter<'_>)
        ensures
            r.index == 0,
            r.word == self,
    {
        WordIter::new(self)
    }
}

} // verus!
