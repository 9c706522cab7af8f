use vstd::prelude::*;
use crate::board::{refreshed, Board, ConstructionError, State};
use crate::dictionary::Dictionary;
use crate::text::{chars_of, decimal_text, push_decimal, push_str, same_text, string_from_chars, trim, trim_chars};
use crate::word::{parts_ok, read_as, Orientation, Word};

verus! {

/// The pieces of `s` between the separators `sep`.
pub open spec fn split_seq(s: Seq<char>, sep: char) -> Seq<Seq<char>>
    decreases s.len(),
{
    if s.len() == 0 {
        seq![Seq::empty()]
    } else {
        let p = split_seq(s.drop_last(), sep);
        if s.last() == sep {
            p.push(Seq::empty())
        } else {
            p.update(p.len() - 1, p.last().push(s.last()))
        }
    }
}

/// The slot definitions of a solution line `S,d1,...,dn`: four fields each.
pub open spec fn groups_of(parts: Seq<Seq<char>>) -> Seq<Seq<Seq<char>>> {
    Seq::new(((parts.len() - 1) / 4) as nat, |g: int| parts.subrange(1 + 4 * g, 5 + 4 * g))
}

/// What has been read of a grid text: the pending start of a definition
/// continued on the next line, the slot definitions, and the first bad line.
pub type Scan = (Seq<char>, Seq<Seq<Seq<char>>>, Option<nat>);

/// Reads line `k`: lines starting with `'#'` and blank lines are skipped; a
/// line ending in `','` continues on the next; a line whose first field is
/// `S` holds several definitions; any other line holds one.
pub open spec fn scan_line(st: Scan, line: Seq<char>, k: nat) -> Scan {
    let t = trim(line);
    if st.2 is Some || (line.len() > 0 && line[0] == '#') || t.len() == 0 {
        st
    } else if t.last() == ',' {
        (st.0 + t, st.1, st.2)
    } else {
        let parts = split_seq(st.0 + t, ',');
        if parts[0] == seq!['S'] {
            if (parts.len() - 1) % 4 != 0 || exists|g: int| 0 <= g < groups_of(parts).len() && !parts_ok(#[trigger] groups_of(parts)[g]) {
                (Seq::empty(), st.1, Some(k))
            } else {
                (Seq::empty(), st.1 + groups_of(parts), None)
            }
        } else if !parts_ok(parts) {
            (Seq::empty(), st.1, Some(k))
        } else {
            (Seq::empty(), st.1.push(parts), None)
        }
    }
}

pub open spec fn scan_lines(lines: Seq<Seq<char>>) -> Scan
    decreases lines.len(),
{
    if lines.len() == 0 {
        (Seq::empty(), Seq::empty(), None)
    } else {
        scan_line(scan_lines(lines.drop_last()), lines.last(), (lines.len() - 1) as nat)
    }
}

/// The pieces of `s` between the separators `sep`.
fn split_chars(s: &Vec<char>, sep: char) -> (r: Vec<Vec<char>>)
    ensures
        r@.map_values(|v: Vec<char>| v@) == split_seq(s@, sep),
{
    let mut done: Vec<Vec<char>> = Vec::new();
    let mut cur: Vec<char> = Vec::new();
    let mut i: usize = 0;
    while i < s.len()
        invariant
            i <= s@.len(),
            done@.map_values(|v: Vec<char>| v@).push(cur@) == split_seq(s@.subrange(0, i as int), sep),
        decreases s@.len() - i,
    {
        let ghost d0 = done@.map_values(|v: Vec<char>| v@);
        let ghost c0 = cur@;
        assert(s@.subrange(0, i as int + 1).drop_last() =~= s@.subrange(0, i as int));
        assert(s@.subrange(0, i as int + 1).last() == s@[i as int]);
        if s[i] == sep {
            let piece = cur;
            done.push(piece);
            cur = Vec::new();
            assert(done@.map_values(|v: Vec<char>| v@) =~= d0.push(c0));
            assert(done@.map_values(|v: Vec<char>| v@).push(cur@) =~= d0.push(c0).push(Seq::empty()));
        } else {
            cur.push(s[i]);
            assert(d0.push(c0).update(d0.len() as int, c0.push(s@[i as int])) =~= d0.push(cur@));
        }
        i = i + 1;
    }
    assert(s@.subrange(0, s@.len() as int) =~= s@);
    let ghost d0 = done@.map_values(|v: Vec<char>| v@);
    let ghost c0 = cur@;
    done.push(cur);
    assert(done@.map_values(|v: Vec<char>| v@) =~= d0.push(c0));
    done
}

/// The strings that the character sequences spell.
fn strings_of(parts: &Vec<Vec<char>>) -> (r: Vec<String>)
    ensures
        r@.map_values(|s: String| s@) == parts@.map_values(|v: Vec<char>| v@),
{
    let mut r: Vec<String> = Vec::new();
    let mut i: usize = 0;
    while i < parts.len()
        invariant
            i <= parts@.len(),
            r@.map_values(|s: String| s@) == parts@.map_values(|v: Vec<char>| v@).subrange(0, i as int),
        decreases parts@.len() - i,
    {
        let s = string_from_chars(&parts[i]);
        let ghost r0 = r@;
        let ghost sv = s@;
        r.push(s);
        assert(r@.map_values(|s: String| s@) =~= r0.map_values(|s: String| s@).push(sv));
        assert(r@.map_values(|s: String| s@) =~= parts@.map_values(|v: Vec<char>| v@).subrange(0, i as int + 1));
        i = i + 1;
    }
    assert(parts@.map_values(|v: Vec<char>| v@).subrange(0, parts@.len() as int) =~= parts@.map_values(|v: Vec<char>| v@));
    r
}

/// Reads the slot that fields `from` up to `to` of `parts` define.
fn read_def(parts: &Vec<String>, from: usize, to: usize) -> (r: Option<Word>)
    requires
        from <= to <= parts@.len(),
    ensures
        match r {
            Some(w) => read_as(w, parts@.map_values(|s: String| s@).subrange(from as int, to as int)),
            None => !parts_ok(parts@.map_values(|s: String| s@).subrange(from as int, to as int)),
        },
{
    let mut refs: Vec<&str> = Vec::new();
    let mut i: usize = from;
    while i < to
        invariant
            from <= i <= to,
            to <= parts@.len(),
            refs@.map_values(|p: &str| p@) == parts@.map_values(|s: String| s@).subrange(from as int, i as int),
        decreases to - i,
    {
        let ghost r0 = refs@;
        let p = parts[i].as_str();
        refs.push(p);
        assert(refs@.map_values(|p: &str| p@) =~= r0.map_values(|p: &str| p@).push(p@));
        assert(refs@.map_values(|p: &str| p@) =~= parts@.map_values(|s: String| s@).subrange(from as int, i as int + 1));
        i = i + 1;
    }
    Word::from_parts(refs.as_slice())
}

/// Reads the slots that a grid text defines, in order: one definition per
/// line, or several on a line that starts with `S`.
pub fn parse_grid(text: &str) -> (r: Result<Vec<Word>, ConstructionError>)
    ensures
        ({
            let st = scan_lines(split_seq(text@, '\n'));
            match r {
                Ok(ws) => st.2 is None && ws@.len() == st.1.len() && forall|i: int| 0 <= i < ws@.len() ==> read_as(#[trigger] ws@[i], st.1[i]),
                Err(ConstructionError::BadLine(k)) => st.2 == Some(k as nat),
                Err(_) => false,
            }
        }),
{
    let all = chars_of(text);
    let lines = split_chars(&all, '\n');
    let ghost ls = lines@.map_values(|v: Vec<char>| v@);
    let mut prev: Vec<char> = Vec::new();
    let mut words: Vec<Word> = Vec::new();
    let mut k: usize = 0;
    while k < lines.len()
        invariant
            k <= lines@.len(),
            ls == lines@.map_values(|v: Vec<char>| v@),
            ls == split_seq(text@, '\n'),
            scan_lines(ls.subrange(0, k as int)).0 == prev@,
            scan_lines(ls.subrange(0, k as int)).2 is None,
            words@.len() == scan_lines(ls.subrange(0, k as int)).1.len(),
            forall|i: int| 0 <= i < words@.len() ==> read_as(#[trigger] words@[i], scan_lines(ls.subrange(0, k as int)).1[i]),
        decreases lines@.len() - k,
    {
        let ghost st = scan_lines(ls.subrange(0, k as int));
        assert(ls.subrange(0, k as int + 1).drop_last() =~= ls.subrange(0, k as int));
        assert(ls.subrange(0, k as int + 1).last() == lines@[k as int]@);
        let ghost next = scan_lines(ls.subrange(0, k as int + 1));
        assert(next == scan_line(st, lines@[k as int]@, k as nat));
        let line = &lines[k];
        let t = trim_chars(line);
        if (line.len() > 0 && line[0] == '#') || t.len() == 0 {
            k = k + 1;
        } else if t[t.len() - 1] == ',' {
            let mut i: usize = 0;
            let ghost p0 = prev@;
            while i < t.len()
                invariant
                    i <= t@.len(),
                    prev@ == p0 + t@.subrange(0, i as int),
                decreases t@.len() - i,
            {
                prev.push(t[i]);
                assert(prev@ =~= p0 + t@.subrange(0, i as int + 1));
                i = i + 1;
            }
            assert(t@.subrange(0, t@.len() as int) =~= t@);
            k = k + 1;
        } else {
            let mut cat = prev;
            prev = Vec::new();
            let ghost p0 = cat@;
            let mut i: usize = 0;
            while i < t.len()
                invariant
                    i <= t@.len(),
                    cat@ == p0 + t@.subrange(0, i as int),
                decreases t@.len() - i,
            {
                cat.push(t[i]);
                assert(cat@ =~= p0 + t@.subrange(0, i as int + 1));
                i = i + 1;
            }
            assert(t@.subrange(0, t@.len() as int) =~= t@);
            assert(prev@ =~= Seq::<char>::empty());
            let pieces = split_chars(&cat, ',');
            let parts = strings_of(&pieces);
            let ghost ps = parts@.map_values(|s: String| s@);
            assert(ps == split_seq(cat@, ','));
            proof {
                assert(split_seq(cat@, ',').len() >= 1) by {
                    lemma_split_nonempty(cat@, ',');
                }
            }
            let np = parts.len();
            assert(ps[0] == parts@[0]@);
            proof {
                reveal_strlit("S");
                assert("S"@ =~= seq!['S']);
            }
            if same_text(parts[0].as_str(), "S") {
                if (np - 1) % 4 != 0 {
                    proof {
                        assert(next.2 == Some(k as nat));
                        lemma_bad_stays(ls, k as int + 1, ls.len() as int);
                        assert(ls.subrange(0, ls.len() as int) =~= ls);
                    }
                    return Err(ConstructionError::BadLine(k));
                }
                let ng = (np - 1) / 4;
                let ghost gs = groups_of(ps);
                let ghost w0 = words@;
                let ghost any_bad = exists|q: int| 0 <= q < gs.len() && !parts_ok(#[trigger] gs[q]);
                assert(next == if any_bad { (Seq::<char>::empty(), st.1, Some(k as nat)) } else { (Seq::<char>::empty(), st.1 + gs, None) });
                let mut g: usize = 0;
                while g < ng
                    invariant
                        ng == gs.len(),
                        np == ps.len(),
                        np >= 1,
                        (np - 1) % 4 == 0,
                        gs == groups_of(ps),
                        ps == parts@.map_values(|s: String| s@),
                        g <= ng,
                        words@.len() == w0.len() + g,
                        forall|i: int| 0 <= i < w0.len() ==> #[trigger] words@[i] == w0[i],
                        forall|q: int| 0 <= q < g ==> parts_ok(#[trigger] gs[q]),
                        forall|q: int| 0 <= q < g ==> read_as(#[trigger] words@[w0.len() + q], gs[q]),
                        k < lines@.len(),
                        ls.len() == lines@.len(),
                        ls == split_seq(text@, '\n'),
                        next == scan_lines(ls.subrange(0, k as int + 1)),
                        any_bad == exists|q: int| 0 <= q < gs.len() && !parts_ok(#[trigger] gs[q]),
                        next == if any_bad { (Seq::<char>::empty(), st.1, Some(k as nat)) } else { (Seq::<char>::empty(), st.1 + gs, None) },
                        w0.len() == st.1.len(),
                        forall|i: int| 0 <= i < w0.len() ==> read_as(#[trigger] w0[i], st.1[i]),
                    decreases ng - g,
                {
                    assert(ps.subrange(1 + 4 * g, 5 + 4 * g) == gs[g as int]);
                    match read_def(&parts, 1 + 4 * g, 5 + 4 * g) {
                        None => {
                            proof {
                                assert(!parts_ok(gs[g as int]));
                                assert(next.2 == Some(k as nat));
                                lemma_bad_stays(ls, k as int + 1, ls.len() as int);
                                assert(ls.subrange(0, ls.len() as int) =~= ls);
                            }
                            return Err(ConstructionError::BadLine(k));
                        },
                        Some(w) => {
                            words.push(w);
                        },
                    }
                    g = g + 1;
                }
                proof {
                    assert(!any_bad);
                    assert forall|i: int| 0 <= i < words@.len() implies read_as(#[trigger] words@[i], next.1[i]) by {
                        if i >= w0.len() {
                            assert(read_as(words@[w0.len() + (i - w0.len())], gs[i - w0.len()]));
                        } else {
                            assert(words@[i] == w0[i]);
                        }
                    }
                }
            } else {
                match read_def(&parts, 0, np) {
                    None => {
                        proof {
                            assert(ps.subrange(0, np as int) =~= ps);
                            assert(next.2 == Some(k as nat));
                            lemma_bad_stays(ls, k as int + 1, ls.len() as int);
                            assert(ls.subrange(0, ls.len() as int) =~= ls);
                        }
                        return Err(ConstructionError::BadLine(k));
                    },
                    Some(w) => {
                        assert(ps.subrange(0, np as int) =~= ps);
                        words.push(w);
                    },
                }
            }
            k = k + 1;
        }
    }
    assert(ls.subrange(0, lines@.len() as int) =~= ls);
    Ok(words)
}

/// Once a line is bad, the scan keeps it as the first bad line.
pub proof fn lemma_bad_stays(ls: Seq<Seq<char>>, j: int, j2: int)
    requires
        0 <= j <= j2 <= ls.len(),
        scan_lines(ls.subrange(0, j)).2 is Some,
    ensures
        scan_lines(ls.subrange(0, j2)).2 == scan_lines(ls.subrange(0, j)).2,
    decreases j2 - j,
{
    if j2 > j {
        lemma_bad_stays(ls, j, j2 - 1);
        assert(ls.subrange(0, j2).drop_last() =~= ls.subrange(0, j2 - 1));
    }
}

pub proof fn lemma_split_nonempty(s: Seq<char>, sep: char)
    ensures
        split_seq(s, sep).len() >= 1,
    decreases s.len(),
{
    if s.len() > 0 {
        lemma_split_nonempty(s.drop_last(), sep);
    }
}

/// `ws` are the slots that the definitions `defs` describe.
pub open spec fn grid_words(ws: Seq<Word>, defs: Seq<Seq<Seq<char>>>) -> bool {
    ws.len() == defs.len() && forall|i: int| 0 <= i < ws.len() ==> read_as(#[trigger] ws[i], defs[i])
}

/// The code of an orientation in a grid text.
pub open spec fn orientation_letter(o: Orientation) -> char {
    match o {
        Orientation::Right => 'R',
        Orientation::Left => 'L',
        Orientation::Down => 'D',
        Orientation::Up => 'U',
    }
}

/// The definition of a slot in a grid text: orientation, x, y, length, the
/// key where there is one, and `=value` where the slot is placed.
pub open spec fn word_text(w: Word) -> Seq<char> {
    let head = seq![orientation_letter(w.o), ','] + decimal_text(w.x as nat) + seq![','] + decimal_text(w.y as nat)
        + seq![','] + decimal_text(w.length as nat);
    let keyed = match w.key_view() {
        Some(k) => head + seq![','] + k,
        None => head,
    };
    if w.placed { keyed + seq!['='] + w.cands()[0] } else { keyed }
}

/// One line for each slot with a key, in order.
pub open spec fn keyed_lines(ws: Seq<Word>) -> Seq<char>
    decreases ws.len(),
{
    if ws.len() == 0 {
        Seq::empty()
    } else {
        keyed_lines(ws.drop_last()) + if ws.last().key is Some { word_text(ws.last()) + seq!['\n'] } else { Seq::empty() }
    }
}

/// `,definition` for each slot without a key, in order.
pub open spec fn solution_items(ws: Seq<Word>) -> Seq<char>
    decreases ws.len(),
{
    if ws.len() == 0 {
        Seq::empty()
    } else {
        solution_items(ws.drop_last()) + if ws.last().key is None { seq![','] + word_text(ws.last()) } else { Seq::empty() }
    }
}

/// The grid text of a board: the slots with a key, one per line, then an
/// `S` line with the slots of the solution phrase, if any.
pub open spec fn grid_text(ws: Seq<Word>) -> Seq<char> {
    let sol = solution_items(ws);
    keyed_lines(ws) + (if sol.len() > 0 { seq!['S'] + sol } else { Seq::empty() }) + seq!['\n']
}

impl Word {
    /// The definition of the slot in a grid text.
    pub fn to_text(&self) -> (r: String)
        requires
            self.placed_ok(),
        ensures
            r@ == word_text(*self),
    {
        let mut v: Vec<char> = Vec::new();
        push_word(&mut v, self);
        assert(v@ =~= word_text(*self));
        string_from_chars(&v)
    }
}

/// Appends the definition of `w` to `v`.
fn push_word(v: &mut Vec<char>, w: &Word)
    requires
        w.placed_ok(),
    ensures
        final(v)@ == old(v)@ + word_text(*w),
{
    let ghost v0 = v@;
    let c = match w.o {
        Orientation::Right => 'R',
        Orientation::Left => 'L',
        Orientation::Down => 'D',
        Orientation::Up => 'U',
    };
    v.push(c);
    v.push(',');
    push_decimal(v, w.x);
    v.push(',');
    push_decimal(v, w.y);
    v.push(',');
    push_decimal(v, w.length);
    let ghost head = seq![orientation_letter(w.o), ','] + decimal_text(w.x as nat) + seq![','] + decimal_text(w.y as nat)
        + seq![','] + decimal_text(w.length as nat);
    assert(v@ =~= v0 + head);
    if let Some(k) = &w.key {
        v.push(',');
        push_str(v, k.as_str());
        assert(v@ =~= v0 + (head + seq![','] + k@));
    }
    let ghost keyed = match w.key_view() {
        Some(k) => head + seq![','] + k,
        None => head,
    };
    assert(v@ =~= v0 + keyed);
    if w.placed {
        v.push('=');
        push_str(v, w.candidates[0].as_str());
        assert(v@ =~= v0 + (keyed + seq!['='] + w.cands()[0]));
    }
}

impl Board {
    /// Reads a board from a grid text: parses the slot definitions, then
    /// builds the board as `from_words` does.
    pub fn from_text(text: &str, filename: String, dict: &Dictionary) -> (r: Result<Board, ConstructionError>)
        requires
            dict.wf(),
        ensures
            ({
                let st = scan_lines(split_seq(text@, '\n'));
                match r {
                    Ok(b) => {
                        &&& st.2 is None
                        &&& b.wf()
                        &&& exists|ws: Seq<Word>| #[trigger] grid_words(ws, st.1) && refreshed(ws, b.words@, b.cross(), *dict)
                        &&& b.filename == filename
                        &&& !b.changed
                        &&& b.state == State::Unsolved
                    },
                    Err(ConstructionError::BadLine(k)) => st.2 == Some(k as nat),
                    Err(ConstructionError::Malformed(i)) => {
                        &&& st.2 is None
                        &&& exists|ws: Seq<Word>| #[trigger] grid_words(ws, st.1) && i < ws.len() && !ws[i as int].wf()
                    },
                    Err(ConstructionError::Conflicting(a, c)) => {
                        &&& st.2 is None
                        &&& exists|ws: Seq<Word>| #[trigger] grid_words(ws, st.1) && a < ws.len() && c < ws.len() && a != c
                            && ws[a as int].spec_conflicts(&ws[c as int])
                    },
                }
            }),
    {
        let words = match parse_grid(text) {
            Ok(ws) => ws,
            Err(e) => return Err(e),
        };
        let ghost ws = words@;
        assert(grid_words(ws, scan_lines(split_seq(text@, '\n')).1));
        Board::from_words(words, filename, dict)
    }

    /// The grid text of the board.
    pub fn to_text(&self) -> (r: String)
        requires
            forall|i: int| 0 <= i < self.words@.len() ==> (#[trigger] self.words@[i]).placed_ok(),
        ensures
            r@ == grid_text(self.words@),
    {
        let ws = &self.words;
        let mut v: Vec<char> = Vec::new();
        let mut i: usize = 0;
        while i < ws.len()
            invariant
                i <= ws@.len(),
                forall|j: int| 0 <= j < ws@.len() ==> (#[trigger] ws@[j]).placed_ok(),
                v@ == keyed_lines(ws@.subrange(0, i as int)),
            decreases ws@.len() - i,
        {
            assert(ws@.subrange(0, i as int + 1).drop_last() =~= ws@.subrange(0, i as int));
            assert(ws@.subrange(0, i as int + 1).last() == ws@[i as int]);
            if ws[i].key.is_some() {
                push_word(&mut v, &ws[i]);
                v.push('\n');
            }
            assert(v@ =~= keyed_lines(ws@.subrange(0, i as int + 1)));
            i = i + 1;
        }
        assert(ws@.subrange(0, ws@.len() as int) =~= ws@);
        let ghost lines = v@;
        let mut sol: Vec<char> = Vec::new();
        i = 0;
        while i < ws.len()
            invariant
                i <= ws@.len(),
                forall|j: int| 0 <= j < ws@.len() ==> (#[trigger] ws@[j]).placed_ok(),
                sol@ == solution_items(ws@.subrange(0, i as int)),
            decreases ws@.len() - i,
        {
            assert(ws@.subrange(0, i as int + 1).drop_last() =~= ws@.subrange(0, i as int));
            assert(ws@.subrange(0, i as int + 1).last() == ws@[i as int]);
            if ws[i].key.is_none() {
                sol.push(',');
                push_word(&mut sol, &ws[i]);
            }
            assert(sol@ =~= solution_items(ws@.subrange(0, i as int + 1)));
            i = i + 1;
        }
        if sol.len() > 0 {
            v.push('S');
            let mut j: usize = 0;
            let ghost v0 = v@;
            while j < sol.len()
                invariant
                    j <= sol@.len(),
                    v@ == v0 + sol@.subrange(0, j as int),
                decreases sol@.len() - j,
            {
                v.push(sol[j]);
                assert(v@ =~= v0 + sol@.subrange(0, j as int + 1));
                j = j + 1;
            }
            assert(sol@.subrange(0, sol@.len() as int) =~= sol@);
        }
        v.push('\n');
        assert(v@ =~= grid_text(ws@));
        string_from_chars(&v)
    }
}

} // verus!
