use vstd::prelude::*;
use crate::dictionary::{lemma_matching_members, open_hint, Dictionary};
use crate::text::{decimal_text, push_decimal, push_str, string_from_chars};
use crate::word::Word;

verus! {

/// How far the solver got.
#[derive(PartialEq, Eq, Structural, Clone, Copy, Debug)]
pub enum State {
    Unsolved,
    Unsolvable,
    Ambiguous,
    Solved,
}

/// Why a grid could not be built.
#[derive(PartialEq, Eq, Structural, Clone, Copy, Debug)]
pub enum ConstructionError {
    /// The slot at this index is not well formed.
    Malformed(usize),
    /// The slots at these indices come too close without crossing.
    Conflicting(usize, usize),
    /// The line of the grid text at this index (from 0) cannot be read.
    BadLine(usize),
}

/// How a slot's line is shown: without candidates, with several, or plainly.
#[derive(PartialEq, Eq, Structural, Clone, Copy, Debug)]
pub enum WordStyle {
    Missing,
    Ambiguous,
    Plain,
}

/// A crossing entry: the crossing slot, the index of the shared cell in the
/// slot that owns the entry, and its index in the crossing slot.
pub type Crossing = (usize, usize, usize);

pub open spec fn dist(a: usize, b: usize) -> usize {
    if a >= b { (a - b) as usize } else { (b - a) as usize }
}

/// The entry that slot `a` records for slot `b`, found at index `bi`.
pub open spec fn crossing_entry(a: Word, b: Word, bi: usize) -> Crossing {
    if a.o.spec_is_horizontal() {
        (bi, dist(a.x, b.x), dist(a.y, b.y))
    } else {
        (bi, dist(a.y, b.y), dist(a.x, b.x))
    }
}

/// The entries of slot `a` for the slots among the first `n` that cross it,
/// in index order.
pub open spec fn crossings_upto(words: Seq<Word>, a: int, n: int) -> Seq<Crossing>
    decreases n,
{
    if n <= 0 {
        Seq::empty()
    } else {
        let rest = crossings_upto(words, a, n - 1);
        if n - 1 != a && words[a].spec_crosses(&words[n - 1]) {
            rest.push(crossing_entry(words[a], words[n - 1], (n - 1) as usize))
        } else {
            rest
        }
    }
}

/// Two sequences of slots with the same positions, orientations, lengths and keys.
pub open spec fn same_slots(w1: Seq<Word>, w2: Seq<Word>) -> bool {
    w1.len() == w2.len() && forall|i: int| 0 <= i < w1.len() ==> (#[trigger] w1[i]).same_slot(&w2[i])
}

/// The letter that a placed slot shows at index `i`.
pub open spec fn letter(w: Word, i: int) -> char {
    w.cands()[0][i]
}

/// The hint built from `entries` over `len` cells: `'.'` everywhere, except
/// under a placed crossing slot, which gives its letter; a later entry wins.
pub open spec fn hint_from(words: Seq<Word>, entries: Seq<Crossing>, len: nat) -> Seq<char>
    decreases entries.len(),
{
    if entries.len() == 0 {
        open_hint(len)
    } else {
        let h = hint_from(words, entries.drop_last(), len);
        let e = entries.last();
        if words[e.0 as int].placed {
            h.update(e.1 as int, letter(words[e.0 as int], e.2 as int))
        } else {
            h
        }
    }
}

/// The hint of slot `a`: its value when placed, else what its crossings give.
pub open spec fn spec_hint(words: Seq<Word>, cross: Seq<Seq<Crossing>>, a: int) -> Seq<char> {
    if words[a].placed {
        words[a].cands()[0]
    } else {
        hint_from(words, cross[a], words[a].length as nat)
    }
}

/// The candidates that a refresh gives slot `i`: a free slot with a key gets
/// what the dictionary has for its key, length and hint; other slots keep theirs.
pub open spec fn refreshed_cands(words: Seq<Word>, cross: Seq<Seq<Crossing>>, dict: Dictionary, i: int) -> Seq<Seq<char>> {
    let w = words[i];
    if w.placed || w.key is None {
        w.cands()
    } else {
        dict.spec_lookup(w.key_view()->0, w.length as nat, Some(hint_from(words, cross[i], w.length as nat)))
    }
}

/// `new` is `old` after a refresh of candidates.
pub open spec fn refreshed(old: Seq<Word>, new: Seq<Word>, cross: Seq<Seq<Crossing>>, dict: Dictionary) -> bool {
    &&& same_slots(old, new)
    &&& forall|i: int| 0 <= i < old.len() ==> (#[trigger] new[i]).placed == old[i].placed
    &&& forall|i: int| 0 <= i < old.len() ==> (#[trigger] new[i]).cands() == refreshed_cands(old, cross, dict, i)
}

/// Crossing is symmetric, and the recorded entry names the one cell that
/// both slots cover: index `e.1` of `a` and index `e.2` of `b`.
pub proof fn lemma_crossing_entry(a: Word, b: Word, bi: usize)
    requires
        a.wf_geometry(),
        b.wf_geometry(),
        a.spec_crosses(&b),
    ensures
        b.spec_crosses(&a),
        ({
            let e = crossing_entry(a, b, bi);
            &&& e.0 == bi
            &&& e.1 < a.length
            &&& e.2 < b.length
            &&& a.spec_position_at(e.1 as int) == b.spec_position_at(e.2 as int)
        }),
        crossing_entry(b, a, 0).1 == crossing_entry(a, b, bi).2,
        crossing_entry(b, a, 0).2 == crossing_entry(a, b, bi).1,
{
}

/// Facts about each entry of `crossings_upto`.
pub open spec fn entry_ok(words: Seq<Word>, a: int, e: Crossing) -> bool {
    &&& 0 <= e.0 < words.len()
    &&& e.0 != a
    &&& words[a].spec_crosses(&words[e.0 as int])
    &&& e.1 < words[a].length
    &&& e.2 < words[e.0 as int].length
    &&& words[a].spec_position_at(e.1 as int) == words[e.0 as int].spec_position_at(e.2 as int)
}

pub proof fn lemma_crossings_upto(words: Seq<Word>, a: int, n: int)
    requires
        0 <= a < words.len(),
        n <= words.len() <= usize::MAX,
        forall|i: int| 0 <= i < words.len() ==> (#[trigger] words[i]).wf_geometry(),
    ensures
        forall|k: int| 0 <= k < crossings_upto(words, a, n).len() ==> {
            &&& entry_ok(words, a, #[trigger] crossings_upto(words, a, n)[k])
            &&& crossings_upto(words, a, n)[k].0 < n
        },
        forall|k: int, l: int|
            0 <= k < l < crossings_upto(words, a, n).len() ==> (#[trigger] crossings_upto(words, a, n)[k]).0
                < (#[trigger] crossings_upto(words, a, n)[l]).0,
        crossings_upto(words, a, n).len() <= if n < 0 { 0 } else { n },
    decreases n,
{
    if n > 0 {
        lemma_crossings_upto(words, a, n - 1);
        if n - 1 != a && words[a].spec_crosses(&words[n - 1]) {
            lemma_crossing_entry(words[a], words[n - 1], (n - 1) as usize);
            let rest = crossings_upto(words, a, n - 1);
            let all = crossings_upto(words, a, n);
            assert(all == rest.push(crossing_entry(words[a], words[n - 1], (n - 1) as usize)));
            assert forall|k: int| 0 <= k < all.len() implies entry_ok(words, a, #[trigger] all[k]) && all[k].0 < n by {
                if k < rest.len() {
                    assert(all[k] == rest[k]);
                }
            }
            assert forall|k: int, l: int| 0 <= k < l < all.len() implies (#[trigger] all[k]).0 < (#[trigger] all[l]).0 by {
                assert(all[k] == rest[k]);
                if l < rest.len() {
                    assert(all[l] == rest[l]);
                }
            }
        }
    }
}

/// Every slot among the first `n` that crosses `a` has its entry in the list.
pub proof fn lemma_crossings_upto_has(words: Seq<Word>, a: int, n: int, b: int)
    requires
        0 <= b < n,
        b != a,
        words[a].spec_crosses(&words[b]),
    ensures
        exists|k: int| 0 <= k < crossings_upto(words, a, n).len()
            && #[trigger] crossings_upto(words, a, n)[k] == crossing_entry(words[a], words[b], b as usize),
    decreases n,
{
    let all = crossings_upto(words, a, n);
    if b == n - 1 {
        assert(all[all.len() - 1] == crossing_entry(words[a], words[b], b as usize));
    } else {
        lemma_crossings_upto_has(words, a, n - 1, b);
        let rest = crossings_upto(words, a, n - 1);
        let k = choose|k: int| 0 <= k < rest.len() && #[trigger] rest[k] == crossing_entry(words[a], words[b], b as usize);
        assert(all[k] == rest[k]);
    }
}

pub proof fn lemma_crossings_stable(w1: Seq<Word>, w2: Seq<Word>, a: int, n: int)
    requires
        same_slots(w1, w2),
        0 <= a < w1.len(),
        n <= w1.len(),
    ensures
        crossings_upto(w1, a, n) == crossings_upto(w2, a, n),
    decreases n,
{
    if n > 0 {
        lemma_crossings_stable(w1, w2, a, n - 1);
        assert(w1[a].same_slot(&w2[a]));
        assert(w1[n - 1].same_slot(&w2[n - 1]));
    }
}

/// The hint over `entries` reads only placed slots and their letters.
pub proof fn lemma_hint_stable(w1: Seq<Word>, w2: Seq<Word>, es: Seq<Crossing>, len: nat)
    requires
        w1.len() == w2.len(),
        forall|k: int| 0 <= k < es.len() ==> (#[trigger] es[k]).0 < w1.len(),
        forall|j: int| 0 <= j < w1.len() ==> (#[trigger] w1[j]).placed == w2[j].placed && (w1[j].placed ==> w1[j].cands() == w2[j].cands()),
    ensures
        hint_from(w1, es, len) == hint_from(w2, es, len),
    decreases es.len(),
{
    if es.len() > 0 {
        lemma_hint_stable(w1, w2, es.drop_last(), len);
        assert(es.last() == es[es.len() - 1]);
    }
}

/// The candidates of `cs`, in order, whose character at index `i` is `c`.
pub open spec fn keep_letter(cs: Seq<Seq<char>>, i: int, c: char) -> Seq<Seq<char>>
    decreases cs.len(),
{
    if cs.len() == 0 {
        Seq::empty()
    } else {
        let rest = keep_letter(cs.drop_last(), i, c);
        if cs.last()[i] == c {
            rest.push(cs.last())
        } else {
            rest
        }
    }
}

/// `keep_letter` keeps a part of the candidates and nothing else.
pub proof fn lemma_keep_letter(cs: Seq<Seq<char>>, i: int, c: char)
    ensures
        keep_letter(cs, i, c).len() <= cs.len(),
        forall|j: int| 0 <= j < keep_letter(cs, i, c).len() ==> cs.contains(#[trigger] keep_letter(cs, i, c)[j]),
        forall|j: int| 0 <= j < keep_letter(cs, i, c).len() ==> (#[trigger] keep_letter(cs, i, c)[j])[i] == c,
    decreases cs.len(),
{
    if cs.len() > 0 {
        lemma_keep_letter(cs.drop_last(), i, c);
        let rest = keep_letter(cs.drop_last(), i, c);
        assert forall|j: int| 0 <= j < rest.len() implies cs.contains(#[trigger] rest[j]) by {
            let k = choose|k: int| 0 <= k < cs.drop_last().len() && cs.drop_last()[k] == rest[j];
            assert(cs[k] == rest[j]);
        }
        assert(cs[cs.len() - 1] == cs.last());
    }
}

/// The candidates of slot `j` once the letters `val` of a newly placed slot
/// have been pressed through the entries `es`: a free crossing slot keeps the
/// candidates that show the shared letter.
pub open spec fn filtered(words: Seq<Word>, es: Seq<Crossing>, val: Seq<char>, j: int) -> Seq<Seq<char>>
    decreases es.len(),
{
    if es.len() == 0 {
        words[j].cands()
    } else {
        let prev = filtered(words, es.drop_last(), val, j);
        let e = es.last();
        if e.0 == j && !words[j].placed {
            keep_letter(prev, e.2 as int, val[e.1 as int])
        } else {
            prev
        }
    }
}

/// A placed slot is never filtered.
pub proof fn lemma_filtered_placed(words: Seq<Word>, es: Seq<Crossing>, val: Seq<char>, j: int)
    requires
        words[j].placed,
    ensures
        filtered(words, es, val, j) == words[j].cands(),
    decreases es.len(),
{
    if es.len() > 0 {
        lemma_filtered_placed(words, es.drop_last(), val, j);
    }
}

pub proof fn lemma_push_contains(s: Seq<usize>, x: usize, y: usize)
    ensures
        s.push(x).contains(y) <==> (s.contains(y) || x == y),
{
    if s.push(x).contains(y) && x != y {
        let q = choose|q: int| 0 <= q < s.push(x).len() && s.push(x)[q] == y;
        assert(q < s.len());
        assert(s[q] == y);
    }
    if s.contains(y) {
        let q = choose|q: int| 0 <= q < s.len() && s[q] == y;
        assert(s.push(x)[q] == y);
    }
    if x == y {
        assert(s.push(x)[s.len() as int] == y);
    }
}

/// Slot `j` is placed, crosses the newly placed slot through one of `es`, and
/// shows another letter there than `val`.
pub open spec fn disagrees(words: Seq<Word>, es: Seq<Crossing>, val: Seq<char>, j: int) -> bool
    decreases es.len(),
{
    if es.len() == 0 {
        false
    } else {
        let e = es.last();
        disagrees(words, es.drop_last(), val, j) || (e.0 == j && words[j].placed && letter(words[j], e.2 as int)
            != val[e.1 as int])
    }
}

/// Some placed slot disagrees with `val` through one of `es`.
pub open spec fn any_disagrees(words: Seq<Word>, es: Seq<Crossing>, val: Seq<char>) -> bool {
    exists|j: int| 0 <= j < words.len() && #[trigger] disagrees(words, es, val, j)
}

/// The value that placing `w` with `opt` gives it.
pub open spec fn value_of(w: Word, opt: Option<String>) -> Seq<char> {
    match opt {
        Some(v) => v@,
        None => w.cands()[0],
    }
}

/// What the dictionary gives free slot `j` under the hint that `words` give it.
pub open spec fn looked_up(words: Seq<Word>, cross: Seq<Seq<Crossing>>, dict: Dictionary, j: int) -> Seq<Seq<char>> {
    dict.spec_lookup(words[j].key_view()->0, words[j].length as nat, Some(hint_from(words, cross[j], words[j].length as nat)))
}

/// `new` is `old` after slot `ix` has been placed with value `val`: each
/// crossing slot that is placed and disagrees is released; where any was, every
/// free slot with a key is refreshed; the other free crossing slots are
/// filtered.
pub open spec fn placed_as(old: Seq<Word>, new: Seq<Word>, cross: Seq<Seq<Crossing>>, ix: int, val: Seq<char>, dict: Dictionary) -> bool {
    let es = cross[ix];
    let rollback = any_disagrees(old, es, val);
    &&& same_slots(old, new)
    &&& new[ix].placed
    &&& new[ix].cands() == seq![val]
    &&& forall|j: int| 0 <= j < old.len() && j != ix ==> (#[trigger] new[j]).placed == (old[j].placed && !disagrees(old, es, val, j))
    &&& forall|j: int| 0 <= j < old.len() && j != ix ==> (#[trigger] new[j]).cands() == if rollback && !new[j].placed && new[j].key is Some {
        looked_up(new, cross, dict, j)
    } else if disagrees(old, es, val, j) {
        Seq::empty()
    } else {
        filtered(old, es, val, j)
    }
}

/// `new` is `old` after slot `ix` has been released and the free slots refreshed.
pub open spec fn unplaced_as(old: Seq<Word>, new: Seq<Word>, cross: Seq<Seq<Crossing>>, ix: int, dict: Dictionary) -> bool {
    &&& same_slots(old, new)
    &&& forall|j: int| 0 <= j < old.len() ==> (#[trigger] new[j]).placed == (old[j].placed && j != ix)
    &&& forall|j: int| 0 <= j < old.len() ==> (#[trigger] new[j]).cands() == if !new[j].placed && new[j].key is Some {
        looked_up(new, cross, dict, j)
    } else if j == ix {
        Seq::empty()
    } else {
        old[j].cands()
    }
}

/// The line that describes slot `i`: its index in brackets, its key and
/// `" = "` where it has one, then its value, or its hint followed by `" ?"`.
pub open spec fn word_line(words: Seq<Word>, cross: Seq<Seq<Crossing>>, i: int) -> Seq<char> {
    let w = words[i];
    let head = seq!['['] + decimal_text(i as nat) + seq![']', ' '];
    let body = if w.placed { w.cands()[0] } else { spec_hint(words, cross, i) + seq![' ', '?'] };
    match w.key_view() {
        Some(k) => head + k + seq![' ', '=', ' '] + body,
        None => head + body,
    }
}

/// No free slot holds exactly one candidate.
pub open spec fn at_fixed_point(words: Seq<Word>) -> bool {
    forall|i: int| 0 <= i < words.len() && !(#[trigger] words[i]).placed ==> words[i].cands().len() != 1
}

/// The state that the free slots show: none left, some with two or more
/// candidates, some with exactly one, or all without any.
pub open spec fn status_of(words: Seq<Word>) -> State {
    if forall|i: int| 0 <= i < words.len() ==> (#[trigger] words[i]).placed {
        State::Solved
    } else if exists|i: int| 0 <= i < words.len() && !(#[trigger] words[i]).placed && words[i].cands().len() >= 2 {
        State::Ambiguous
    } else if exists|i: int| 0 <= i < words.len() && !(#[trigger] words[i]).placed && words[i].cands().len() == 1 {
        State::Unsolved
    } else {
        State::Unsolvable
    }
}

/// How many slots are free.
pub open spec fn open_count(words: Seq<Word>) -> nat
    decreases words.len(),
{
    if words.len() == 0 {
        0
    } else {
        open_count(words.drop_last()) + if words.last().placed { 0nat } else { 1nat }
    }
}

pub proof fn lemma_open_count_same(w1: Seq<Word>, w2: Seq<Word>)
    requires
        w1.len() == w2.len(),
        forall|j: int| 0 <= j < w1.len() ==> (#[trigger] w1[j]).placed == w2[j].placed,
    ensures
        open_count(w1) == open_count(w2),
    decreases w1.len(),
{
    if w1.len() > 0 {
        lemma_open_count_same(w1.drop_last(), w2.drop_last());
        assert(w1.last() == w1[w1.len() - 1]);
        assert(w2.last() == w2[w2.len() - 1]);
    }
}

/// Placing one free slot, and changing no other placement, leaves one free
/// slot fewer.
pub proof fn lemma_open_count_place(w1: Seq<Word>, w2: Seq<Word>, ix: int)
    requires
        w1.len() == w2.len(),
        0 <= ix < w1.len(),
        !w1[ix].placed,
        w2[ix].placed,
        forall|j: int| 0 <= j < w1.len() && j != ix ==> (#[trigger] w1[j]).placed == w2[j].placed,
    ensures
        open_count(w2) + 1 == open_count(w1),
    decreases w1.len(),
{
    assert(w1.last() == w1[w1.len() - 1]);
    assert(w2.last() == w2[w2.len() - 1]);
    if ix == w1.len() - 1 {
        lemma_open_count_same(w1.drop_last(), w2.drop_last());
    } else {
        lemma_open_count_place(w1.drop_last(), w2.drop_last(), ix);
    }
}

/// Filtering keeps a part of a slot's candidates and adds none.
pub proof fn lemma_filtered_narrows(words: Seq<Word>, es: Seq<Crossing>, val: Seq<char>, j: int)
    ensures
        filtered(words, es, val, j).len() <= words[j].cands().len(),
        forall|q: int| 0 <= q < filtered(words, es, val, j).len() ==> words[j].cands().contains(#[trigger] filtered(words, es, val, j)[q]),
    decreases es.len(),
{
    if es.len() > 0 {
        lemma_filtered_narrows(words, es.drop_last(), val, j);
        let prev = filtered(words, es.drop_last(), val, j);
        let e = es.last();
        if e.0 == j && !words[j].placed {
            lemma_keep_letter(prev, e.2 as int, val[e.1 as int]);
            let cur = keep_letter(prev, e.2 as int, val[e.1 as int]);
            assert forall|q: int| 0 <= q < cur.len() implies words[j].cands().contains(#[trigger] cur[q]) by {
                assert(prev.contains(cur[q]));
                let r = choose|r: int| 0 <= r < prev.len() && prev[r] == cur[q];
                assert(words[j].cands().contains(prev[r]));
            }
        }
    }
}

/// Crossing is symmetric: `a` crosses `b` exactly when `b` crosses `a`.
pub proof fn lemma_crossing_symmetric(a: &Word, b: &Word)
    requires
        a.wf_geometry(),
        b.wf_geometry(),
    ensures
        a.spec_crosses(b) == b.spec_crosses(a),
{
}

/// Placing a slot without releasing any other one only narrows the
/// candidates of the other slots: none gains a candidate, and none has more
/// than before.
pub proof fn lemma_place_narrows(
    old: Seq<Word>,
    new: Seq<Word>,
    cross: Seq<Seq<Crossing>>,
    ix: int,
    val: Seq<char>,
    dict: Dictionary,
)
    requires
        placed_as(old, new, cross, ix, val, dict),
        !any_disagrees(old, cross[ix], val),
    ensures
        forall|j: int| 0 <= j < old.len() && j != ix ==> (#[trigger] new[j]).cands().len() <= old[j].cands().len(),
        forall|j: int, q: int|
            0 <= j < old.len() && j != ix && 0 <= q < new[j].cands().len() ==> old[j].cands().contains(#[trigger] new[j].cands()[q]),
{
    assert forall|j: int| 0 <= j < old.len() && j != ix implies (#[trigger] new[j]).cands() == filtered(old, cross[ix], val, j) by {
        if disagrees(old, cross[ix], val, j) {
            assert(any_disagrees(old, cross[ix], val));
        }
    }
    assert forall|j: int| 0 <= j < old.len() && j != ix implies (#[trigger] new[j]).cands().len() <= old[j].cands().len() by {
        lemma_filtered_narrows(old, cross[ix], val, j);
    }
    assert forall|j: int, q: int|
        0 <= j < old.len() && j != ix && 0 <= q < new[j].cands().len() implies old[j].cands().contains(#[trigger] new[j].cands()[q]) by {
        lemma_filtered_narrows(old, cross[ix], val, j);
    }
}

/// Where slot `e.0` is placed, slot `a` agrees with it through entry `e`:
/// a placed `a` shows the same letter at the shared cell, and every candidate
/// of a free `a` shows that letter there.
pub open spec fn agrees(words: Seq<Word>, a: int, e: Crossing) -> bool {
    let b = e.0 as int;
    if words[a].placed {
        letter(words[a], e.1 as int) == letter(words[b], e.2 as int)
    } else {
        forall|q: int| 0 <= q < words[a].cands().len() ==> (#[trigger] words[a].cands()[q])[e.1 as int] == letter(words[b], e.2 as int)
    }
}

/// No placement contradicts another: placed crossing slots agree on their
/// shared cells, and the candidates of each free slot show, at each shared
/// cell, the letter of the placed slot that crosses it there.
pub open spec fn consistent(words: Seq<Word>, cross: Seq<Seq<Crossing>>) -> bool {
    forall|a: int, k: int|
        0 <= a < words.len() && 0 <= k < cross[a].len() && words[cross[a][k].0 as int].placed ==> #[trigger] agrees(words, a, cross[a][k])
}

/// `w2` is `w1` after the solver placed free slot `ix` with its one candidate.
pub open spec fn commit_step(w1: Seq<Word>, w2: Seq<Word>, ix: int, cross: Seq<Seq<Crossing>>, dict: Dictionary) -> bool {
    &&& 0 <= ix < w1.len()
    &&& !w1[ix].placed
    &&& w1[ix].cands().len() == 1
    &&& placed_as(w1, w2, cross, ix, w1[ix].cands()[0], dict)
}

/// `ws` runs from `start` to `end`, each state reached from the one before by
/// placing slot `ixs[k]` with its one candidate.
pub open spec fn solve_trace(
    ws: Seq<Seq<Word>>,
    ixs: Seq<int>,
    start: Seq<Word>,
    end: Seq<Word>,
    cross: Seq<Seq<Crossing>>,
    dict: Dictionary,
) -> bool {
    &&& ws.len() == ixs.len() + 1
    &&& ws[0] == start
    &&& ws[ws.len() - 1] == end
    &&& forall|k: int| 0 <= k < ixs.len() ==> #[trigger] commit_step(ws[k], ws[k + 1], ixs[k], cross, dict)
}

/// No step of the trace released a slot.
pub open spec fn releases_none(ws: Seq<Seq<Word>>, ixs: Seq<int>, cross: Seq<Seq<Crossing>>) -> bool {
    forall|k: int| 0 <= k < ixs.len() ==> !any_disagrees(ws[k], cross[ixs[k]], #[trigger] ws[k][ixs[k]].cands()[0])
}

/// Where every placed slot of `es` shows `val`'s letter, none disagrees.
pub proof fn lemma_no_disagree(words: Seq<Word>, es: Seq<Crossing>, val: Seq<char>, j: int)
    requires
        forall|k: int| 0 <= k < es.len() && words[(#[trigger] es[k]).0 as int].placed ==> letter(words[es[k].0 as int], es[k].2 as int) == val[es[k].1 as int],
    ensures
        !disagrees(words, es, val, j),
    decreases es.len(),
{
    if es.len() > 0 {
        lemma_no_disagree(words, es.drop_last(), val, j);
        assert(es.last() == es[es.len() - 1]);
    }
}

/// Where `es[k]` filters free slot `j`, every remaining candidate of `j`
/// shows the letter of `val` at the shared cell.
pub proof fn lemma_filtered_entry(words: Seq<Word>, es: Seq<Crossing>, val: Seq<char>, j: int, k: int)
    requires
        0 <= k < es.len(),
        es[k].0 == j,
        !words[j].placed,
    ensures
        forall|q: int| 0 <= q < filtered(words, es, val, j).len() ==> (#[trigger] filtered(words, es, val, j)[q])[es[k].2 as int] == val[es[k].1 as int],
    decreases es.len(),
{
    let cur = filtered(words, es, val, j);
    let prev = filtered(words, es.drop_last(), val, j);
    let e = es.last();
    assert(e == es[es.len() - 1]);
    if k == es.len() - 1 {
        lemma_keep_letter(prev, e.2 as int, val[e.1 as int]);
    } else {
        assert(es.drop_last()[k] == es[k]);
        lemma_filtered_entry(words, es.drop_last(), val, j, k);
        if e.0 == j {
            lemma_keep_letter(prev, e.2 as int, val[e.1 as int]);
            assert forall|q: int| 0 <= q < cur.len() implies (#[trigger] cur[q])[es[k].2 as int] == val[es[k].1 as int] by {
                assert(prev.contains(cur[q]));
                let r = choose|r: int| 0 <= r < prev.len() && prev[r] == cur[q];
                assert(prev[r][es[k].2 as int] == val[es[k].1 as int]);
            }
        }
    }
}

/// How many slots are free is at most how many there are.
pub proof fn lemma_open_count_le(words: Seq<Word>)
    ensures
        open_count(words) <= words.len(),
    decreases words.len(),
{
    if words.len() > 0 {
        lemma_open_count_le(words.drop_last());
    }
}

/// One past the largest `xmax` of the slots: the width of the grid.
pub open spec fn span_x(ws: Seq<Word>) -> int
    decreases ws.len(),
{
    if ws.len() == 0 {
        0
    } else {
        let r = span_x(ws.drop_last());
        if ws.last().spec_xmax() + 1 > r { ws.last().spec_xmax() + 1 } else { r }
    }
}

/// One past the largest `ymax` of the slots: the height of the grid.
pub open spec fn span_y(ws: Seq<Word>) -> int
    decreases ws.len(),
{
    if ws.len() == 0 {
        0
    } else {
        let r = span_y(ws.drop_last());
        if ws.last().spec_ymax() + 1 > r { ws.last().spec_ymax() + 1 } else { r }
    }
}

/// The candidates of `cands` whose character at index `i` is `c`, in order.
fn keep_matching(cands: &Vec<String>, i: usize, c: char) -> (r: Vec<String>)
    requires
        forall|j: int| 0 <= j < cands@.len() ==> i < (#[trigger] cands@[j])@.len(),
    ensures
        r@.map_values(|w: String| w@) == keep_letter(cands@.map_values(|w: String| w@), i as int, c),
{
    let ghost cs = cands@.map_values(|w: String| w@);
    let mut r: Vec<String> = Vec::new();
    let mut j: usize = 0;
    while j < cands.len()
        invariant
            j <= cands@.len(),
            cs == cands@.map_values(|w: String| w@),
            forall|q: int| 0 <= q < cands@.len() ==> i < (#[trigger] cands@[q])@.len(),
            r@.map_values(|w: String| w@) == keep_letter(cs.subrange(0, j as int), i as int, c),
        decreases cands@.len() - j,
    {
        let ghost before = r@;
        assert(cs.subrange(0, j as int + 1).drop_last() =~= cs.subrange(0, j as int));
        assert(cs.subrange(0, j as int + 1).last() == cands@[j as int]@);
        if cands[j].as_str().get_char(i) == c {
            r.push(cands[j].clone());
            assert(r@.map_values(|w: String| w@) =~= before.map_values(|w: String| w@).push(cands@[j as int]@));
        }
        j = j + 1;
    }
    assert(cs.subrange(0, cands@.len() as int) =~= cs);
    r
}

/// A grid of slots with its crossing index and solving state.
pub struct Board {
    pub words: Vec<Word>,
    /// For each slot, the slots that cross it, with the shared cell's index
    /// in each.
    pub crossings: Vec<Vec<Crossing>>,
    pub width: usize,
    pub height: usize,
    pub changed: bool,
    pub state: State,
    pub filename: String,
    pub colors: bool,
}

impl Board {
    pub open spec fn cross(&self) -> Seq<Seq<Crossing>> {
        self.crossings@.map_values(|v: Vec<Crossing>| v@)
    }

    /// Every slot is well formed, the crossing index is exactly the crossings
    /// of the slots, and no two slots conflict.
    pub open spec fn wf(&self) -> bool {
        let n = self.words@.len();
        &&& self.crossings@.len() == n
        &&& forall|i: int| 0 <= i < n ==> (#[trigger] self.words@[i]).wf()
        &&& forall|a: int| 0 <= a < n ==> (#[trigger] self.crossings@[a])@ == crossings_upto(self.words@, a, n as int)
        &&& forall|a: int, b: int|
            #![trigger self.words@[a], self.words@[b]]
            0 <= a < n && 0 <= b < n && a != b ==> !self.words@[a].spec_conflicts(&self.words@[b])
    }

    /// Everything but the slots is the same in both boards.
    pub open spec fn same_but_words(&self, other: &Board) -> bool {
        &&& self.crossings == other.crossings
        &&& self.width == other.width
        &&& self.height == other.height
        &&& self.changed == other.changed
        &&& self.state == other.state
        &&& self.filename == other.filename
        &&& self.colors == other.colors
    }

    /// `wf` holds of a board whose slots differ from those of a `wf` board
    /// only in their candidates and placement, where each slot stays `wf`.
    pub proof fn lemma_wf_kept(b1: &Board, b2: &Board)
        requires
            b1.wf(),
            b1.crossings == b2.crossings,
            same_slots(b1.words@, b2.words@),
            forall|i: int| 0 <= i < b2.words@.len() ==> (#[trigger] b2.words@[i]).wf(),
        ensures
            b2.wf(),
    {
        let n = b1.words@.len();
        assert forall|a: int| 0 <= a < n implies (#[trigger] b2.crossings@[a])@ == crossings_upto(b2.words@, a, n as int) by {
            lemma_crossings_stable(b1.words@, b2.words@, a, n as int);
        }
        assert forall|a: int, b: int|
            #![trigger b2.words@[a], b2.words@[b]]
            0 <= a < n && 0 <= b < n && a != b implies !b2.words@[a].spec_conflicts(&b2.words@[b]) by {
            assert(b1.words@[a].same_slot(&b2.words@[a]));
            assert(b1.words@[b].same_slot(&b2.words@[b]));
            assert(!b1.words@[a].spec_conflicts(&b1.words@[b]));
        }
    }

    /// Each recorded crossing names a slot that crosses this one; the two
    /// recorded indices point at one and the same cell of the grid; and the
    /// other slot records the same crossing with the indices swapped.
    pub proof fn lemma_crossing_offsets(&self, a: int, k: int)
        requires
            self.wf(),
            0 <= a < self.words@.len(),
            0 <= k < self.crossings@[a]@.len(),
        ensures
            ({
                let (b, ai, bi) = self.crossings@[a]@[k];
                &&& b < self.words@.len()
                &&& b != a
                &&& self.words@[a].spec_crosses(&self.words@[b as int])
                &&& self.words@[b as int].spec_crosses(&self.words@[a])
                &&& ai < self.words@[a].length
                &&& bi < self.words@[b as int].length
                &&& self.words@[a].spec_position_at(ai as int) == self.words@[b as int].spec_position_at(bi as int)
                &&& exists|k2: int| 0 <= k2 < self.crossings@[b as int]@.len()
                    && #[trigger] self.crossings@[b as int]@[k2] == (a as usize, bi, ai)
            }),
    {
        let n = self.words@.len();
        assert(self.words@.len() == self.words.len());
        lemma_crossings_upto(self.words@, a, n as int);
        let e = self.crossings@[a]@[k];
        assert(entry_ok(self.words@, a, e));
        let b = e.0 as int;
        lemma_crossing_symmetric(&self.words@[a], &self.words@[b]);
        lemma_crossing_entry(self.words@[a], self.words@[b], e.0);
        lemma_crossing_entry(self.words@[b], self.words@[a], a as usize);
        lemma_crossings_upto_has(self.words@, b, n as int, a);
        assert(self.crossings@[b]@ == crossings_upto(self.words@, b, n as int));
    }

    /// From a consistent board, placing a free slot with its one candidate
    /// releases nothing, and the board stays consistent.
    pub proof fn lemma_commit_consistent(b0: &Board, new: Seq<Word>, ix: int, dict: Dictionary)
        requires
            b0.wf(),
            consistent(b0.words@, b0.cross()),
            commit_step(b0.words@, new, ix, b0.cross(), dict),
        ensures
            !any_disagrees(b0.words@, b0.cross()[ix], b0.words@[ix].cands()[0]),
            consistent(new, b0.cross()),
    {
        let old = b0.words@;
        let cross = b0.cross();
        let n = old.len();
        let es = cross[ix];
        let val = old[ix].cands()[0];
        assert(b0.words@.len() == b0.words.len());
        assert(cross[ix] == b0.crossings@[ix]@);
        lemma_crossings_upto(old, ix, n as int);
        assert forall|k: int| 0 <= k < es.len() && old[(#[trigger] es[k]).0 as int].placed implies letter(old[es[k].0 as int], es[k].2 as int) == val[es[k].1 as int] by {
            assert(agrees(old, ix, cross[ix][k]));
            assert(old[ix].cands()[0][es[k].1 as int] == letter(old[es[k].0 as int], es[k].2 as int));
        }
        assert forall|j: int| 0 <= j < n implies !#[trigger] disagrees(old, es, val, j) by {
            lemma_no_disagree(old, es, val, j);
        }
        assert(!any_disagrees(old, es, val));
        // Outside `ix`, placements and the letters of placed slots are unchanged.
        assert forall|j: int| 0 <= j < n && j != ix implies (#[trigger] new[j]).placed == old[j].placed
            && new[j].cands() == filtered(old, es, val, j) by {
            assert(!disagrees(old, es, val, j));
        }
        assert forall|j: int| 0 <= j < n && j != ix && old[j].placed implies (#[trigger] new[j]).cands() == old[j].cands() by {
            lemma_filtered_placed(old, es, val, j);
        }
        assert forall|a: int, k: int|
            0 <= a < n && 0 <= k < cross[a].len() && new[cross[a][k].0 as int].placed implies #[trigger] agrees(new, a, cross[a][k]) by {
            assert(cross[a] == b0.crossings@[a]@);
            b0.lemma_crossing_offsets(a, k);
            let e = cross[a][k];
            let b = e.0 as int;
            if a == ix {
                assert(old[b].placed);
                assert(agrees(old, ix, cross[ix][k]));
                assert(old[ix].cands()[0][e.1 as int] == letter(old[b], e.2 as int));
            } else if b != ix {
                assert(old[b].placed);
                assert(agrees(old, a, cross[a][k]));
                if !new[a].placed {
                    lemma_filtered_narrows(old, es, val, a);
                    assert forall|q: int| 0 <= q < new[a].cands().len() implies (#[trigger] new[a].cands()[q])[e.1 as int] == letter(new[b], e.2 as int) by {
                        assert(old[a].cands().contains(new[a].cands()[q]));
                        let r = choose|r: int| 0 <= r < old[a].cands().len() && old[a].cands()[r] == new[a].cands()[q];
                        assert(old[a].cands()[r][e.1 as int] == letter(old[b], e.2 as int));
                    }
                }
            } else {
                let k2 = choose|k2: int| 0 <= k2 < b0.crossings@[b]@.len() && #[trigger] b0.crossings@[b]@[k2] == (a as usize, e.2, e.1);
                assert(es[k2] == (a as usize, e.2, e.1));
                if new[a].placed {
                    assert(old[a].placed);
                    assert(agrees(old, ix, cross[ix][k2]));
                    assert(old[ix].cands()[0][e.2 as int] == letter(old[a], e.1 as int));
                } else {
                    lemma_filtered_entry(old, es, val, a, k2);
                }
            }
        }
    }

    /// Placing a free slot and releasing it again, where the placement
    /// released nothing, gives every free slot with a key its candidates
    /// back: the board's slots are as they were.
    pub proof fn lemma_place_then_unplace(b0: &Board, s1: Seq<Word>, s2: Seq<Word>, ix: int, val: Seq<char>, dict: Dictionary)
        requires
            b0.wf(),
            0 <= ix < b0.words@.len(),
            !b0.words@[ix].placed,
            placed_as(b0.words@, s1, b0.cross(), ix, val, dict),
            !any_disagrees(b0.words@, b0.cross()[ix], val),
            unplaced_as(s1, s2, b0.cross(), ix, dict),
        ensures
            forall|j: int| 0 <= j < s2.len() ==> (#[trigger] s2[j]).placed == b0.words@[j].placed,
            forall|j: int| 0 <= j < s2.len() && (b0.words@[j].placed || b0.words@[j].key is Some)
                ==> (#[trigger] s2[j]).cands() == refreshed_cands(b0.words@, b0.cross(), dict, j),
    {
        let s0 = b0.words@;
        let cross = b0.cross();
        let n = s0.len();
        let es = cross[ix];
        assert(b0.words@.len() == b0.words.len());
        assert forall|j: int| 0 <= j < n && j != ix implies (#[trigger] s1[j]).placed == s0[j].placed by {
            if disagrees(s0, es, val, j) {
                assert(any_disagrees(s0, es, val));
            }
        }
        assert forall|j: int| 0 <= j < n && s0[j].placed implies (#[trigger] s2[j]).cands() == s0[j].cands() by {
            if j != ix {
                assert(!disagrees(s0, es, val, j));
                lemma_filtered_placed(s0, es, val, j);
            }
        }
        assert forall|j: int| 0 <= j < n && (s0[j].placed || s0[j].key is Some)
            implies (#[trigger] s2[j]).cands() == refreshed_cands(s0, cross, dict, j) by {
            assert(s0[j].same_slot(&s1[j]));
            assert(s1[j].same_slot(&s2[j]));
            if !s0[j].placed {
                lemma_crossings_upto(s0, j, n as int);
                assert(cross[j] == b0.crossings@[j]@);
                lemma_hint_stable(s0, s2, cross[j], s0[j].length as nat);
            }
        }
    }

    /// No two slots of a well-formed board conflict.
    pub proof fn lemma_no_conflicts(&self)
        requires
            self.wf(),
        ensures
            forall|a: int, b: int|
                #![trigger self.words@[a], self.words@[b]]
                0 <= a < self.words@.len() && 0 <= b < self.words@.len() && a != b ==> !self.words@[a].spec_conflicts(&self.words@[b]),
    {
    }

    /// A second refresh straight after a first one changes nothing.
    pub proof fn lemma_refresh_idempotent(b0: &Board, w1: Seq<Word>, w2: Seq<Word>, dict: Dictionary)
        requires
            b0.wf(),
            refreshed(b0.words@, w1, b0.cross(), dict),
            refreshed(w1, w2, b0.cross(), dict),
        ensures
            forall|i: int| 0 <= i < w1.len() ==> (#[trigger] w2[i]).placed == w1[i].placed && w2[i].cands() == w1[i].cands(),
    {
        let w0 = b0.words@;
        let n = w0.len();
        assert(b0.words@.len() == b0.words.len());
        assert forall|i: int| 0 <= i < w1.len() implies (#[trigger] w2[i]).placed == w1[i].placed && w2[i].cands() == w1[i].cands() by {
            assert(w0[i].same_slot(&w1[i]));
            if !w1[i].placed && w1[i].key is Some {
                lemma_crossings_upto(w0, i, n as int);
                assert(b0.cross()[i] == b0.crossings@[i]@);
                lemma_hint_stable(w0, w1, b0.cross()[i], w1[i].length as nat);
            }
        }
    }

    /// Builds a board from its slots: checks that each slot is well formed and
    /// that no two conflict, indexes the crossings, and fills the free slots
    /// with candidates from the dictionary.
    pub fn from_words(words: Vec<Word>, filename: String, dict: &Dictionary) -> (r: Result<Board, ConstructionError>)
        requires
            dict.wf(),
        ensures
            match r {
                Ok(b) => {
                    &&& forall|i: int| 0 <= i < words@.len() ==> (#[trigger] words@[i]).wf()
                    &&& b.wf()
                    &&& refreshed(words@, b.words@, b.cross(), *dict)
                    &&& b.width == span_x(words@)
                    &&& b.height == span_y(words@)
                    &&& b.filename == filename
                    &&& !b.changed
                    &&& b.state == State::Unsolved
                    &&& b.colors
                },
                Err(ConstructionError::Malformed(i)) => {
                    &&& i < words@.len()
                    &&& !words@[i as int].wf()
                    &&& forall|j: int| 0 <= j < i ==> (#[trigger] words@[j]).wf()
                },
                Err(ConstructionError::Conflicting(a, b)) => {
                    &&& forall|i: int| 0 <= i < words@.len() ==> (#[trigger] words@[i]).wf()
                    &&& a < words@.len()
                    &&& b < words@.len()
                    &&& a != b
                    &&& words@[a as int].spec_conflicts(&words@[b as int])
                    &&& forall|x: int, y: int|
                        #![trigger words@[x], words@[y]]
                        (0 <= x < a || (x == a && 0 <= y < b)) && 0 <= y < words@.len() && x != y
                            ==> !words@[x].spec_conflicts(&words@[y])
                },
                Err(ConstructionError::BadLine(_)) => false,
            },
    {
        let n = words.len();
        let mut width: usize = 0;
        let mut height: usize = 0;
        let mut i: usize = 0;
        while i < n
            invariant
                n == words@.len(),
                i <= n,
                forall|j: int| 0 <= j < i ==> (#[trigger] words@[j]).wf(),
                width == span_x(words@.subrange(0, i as int)),
                height == span_y(words@.subrange(0, i as int)),
            decreases n - i,
        {
            if !words[i].is_well_formed() {
                return Err(ConstructionError::Malformed(i));
            }
            let xm = words[i].xmax() + 1;
            let ym = words[i].ymax() + 1;
            assert(words@.subrange(0, i as int + 1).drop_last() =~= words@.subrange(0, i as int));
            if xm > width {
                width = xm;
            }
            if ym > height {
                height = ym;
            }
            i = i + 1;
        }
        assert(words@.subrange(0, n as int) =~= words@);
        let mut crossings: Vec<Vec<Crossing>> = Vec::new();
        let mut a: usize = 0;
        while a < n
            invariant
                n == words@.len(),
                a <= n,
                forall|j: int| 0 <= j < n ==> (#[trigger] words@[j]).wf(),
                crossings@.len() == a,
                forall|k: int| 0 <= k < a ==> (#[trigger] crossings@[k])@ == crossings_upto(words@, k, n as int),
                forall|x: int, y: int|
                    #![trigger words@[x], words@[y]]
                    0 <= x < a && 0 <= y < n && x != y ==> !words@[x].spec_conflicts(&words@[y]),
            decreases n - a,
        {
            let mut list: Vec<Crossing> = Vec::new();
            let mut b: usize = 0;
            while b < n
                invariant
                    n == words@.len(),
                    a < n,
                    b <= n,
                    forall|j: int| 0 <= j < n ==> (#[trigger] words@[j]).wf(),
                    list@ == crossings_upto(words@, a as int, b as int),
                    forall|x: int, y: int|
                        #![trigger words@[x], words@[y]]
                        0 <= x < a && 0 <= y < n && x != y ==> !words@[x].spec_conflicts(&words@[y]),
                    forall|y: int|
                        0 <= y < b && a != y ==> !words@[a as int].spec_conflicts(&(#[trigger] words@[y])),
                decreases n - b,
            {
                if a != b {
                    if words[a].is_conflicting(&words[b]) {
                        return Err(ConstructionError::Conflicting(a, b));
                    }
                    if words[a].is_crossing(&words[b]) {
                        let wa = &words[a];
                        let wb = &words[b];
                        let xi = if wa.x > wb.x { wa.x - wb.x } else { wb.x - wa.x };
                        let yi = if wa.y > wb.y { wa.y - wb.y } else { wb.y - wa.y };
                        if wa.o.is_horizontal() {
                            list.push((b, xi, yi));
                        } else {
                            list.push((b, yi, xi));
                        }
                    }
                }
                b = b + 1;
            }
            crossings.push(list);
            proof {
                assert forall|x: int, y: int|
                    #![trigger words@[x], words@[y]]
                    0 <= x < a + 1 && 0 <= y < n && x != y implies !words@[x].spec_conflicts(&words@[y]) by {
                    if x == a {
                        assert(!words@[a as int].spec_conflicts(&words@[y]));
                    }
                }
            }
            a = a + 1;
        }
        let mut board = Board {
            words: words,
            crossings: crossings,
            width: width,
            height: height,
            changed: false,
            state: State::Unsolved,
            filename: filename,
            colors: true,
        };
        assert(board.wf());
        board.refresh_candidates(dict);
        Ok(board)
    }

    /// The hint of slot `a`: its value when placed; otherwise `'.'` in every
    /// cell but those that a placed crossing slot fills.
    pub fn get_hints(&self, a: usize) -> (r: String)
        requires
            self.wf(),
            a < self.words@.len(),
        ensures
            r@ == spec_hint(self.words@, self.cross(), a as int),
            r@.len() == self.words@[a as int].length,
    {
        let w = &self.words[a];
        if w.placed {
            return w.candidates[0].clone();
        }
        let ghost words = self.words@;
        let n = self.words.len();
        let list = &self.crossings[a];
        assert(list@ == self.cross()[a as int]);
        proof {
            lemma_crossings_upto(words, a as int, n as int);
        }
        let mut v: Vec<char> = Vec::new();
        let mut i: usize = 0;
        while i < w.length
            invariant
                i <= w.length,
                v@ == Seq::new(i as nat, |k: int| '.'),
            decreases w.length - i,
        {
            v.push('.');
            assert(v@ =~= Seq::new(i as nat + 1, |k: int| '.'));
            i = i + 1;
        }
        let mut k: usize = 0;
        while k < list.len()
            invariant
                self.wf(),
                words == self.words@,
                a < n,
                w == words[a as int],
                list@ == self.cross()[a as int],
                list@ == crossings_upto(words, a as int, n as int),
                forall|j: int| 0 <= j < list@.len() ==> entry_ok(words, a as int, #[trigger] list@[j]),
                k <= list@.len(),
                v@ == hint_from(words, list@.subrange(0, k as int), w.length as nat),
                v@.len() == w.length,
            decreases list@.len() - k,
        {
            let (b, ai, bi) = list[k];
            assert(entry_ok(words, a as int, list@[k as int]));
            assert(list@.subrange(0, k as int + 1).drop_last() =~= list@.subrange(0, k as int));
            assert(list@.subrange(0, k as int + 1).last() == list@[k as int]);
            if self.words[b].placed {
                assert(self.words@[b as int].wf());
                let c = self.words[b].char_at(bi);
                v.set(ai, c);
            }
            k = k + 1;
        }
        assert(list@.subrange(0, list@.len() as int) =~= list@);
        string_from_chars(&v)
    }

    /// Places slot `ix`, with `opt_word` where one is given, else with its one
    /// candidate, and returns how many crossing slots had to be released.
    fn commit(&mut self, ix: usize, opt_word: Option<String>, dict: &Dictionary) -> (rolled: usize)
        requires
            old(self).wf(),
            dict.wf(),
            ix < old(self).words@.len(),
            match opt_word {
                Some(v) => v@.len() == old(self).words@[ix as int].length,
                None => old(self).words@[ix as int].cands().len() == 1,
            },
        ensures
            final(self).wf(),
            final(self).crossings == old(self).crossings,
            placed_as(
                old(self).words@,
                final(self).words@,
                old(self).cross(),
                ix as int,
                value_of(old(self).words@[ix as int], opt_word),
                *dict,
            ),
            (rolled == 0) == !any_disagrees(old(self).words@, old(self).cross()[ix as int], value_of(old(self).words@[ix as int], opt_word)),
            final(self).width == old(self).width,
            final(self).height == old(self).height,
            final(self).changed == old(self).changed,
            final(self).state == old(self).state,
            final(self).filename == old(self).filename,
            final(self).colors == old(self).colors,
    {
        let ghost w0 = self.words@;
        let ghost val = value_of(w0[ix as int], opt_word);
        let ghost es = self.cross()[ix as int];
        let n = self.words.len();
        proof {
            lemma_crossings_upto(w0, ix as int, n as int);
        }
        self.words[ix].place(opt_word);
        assert(self.words@[ix as int].wf());
        let ghost w1 = self.words@;
        let mut unplace: Vec<usize> = Vec::new();
        let mut k: usize = 0;
        let kn = self.crossings[ix].len();
        assert(self.crossings@[ix as int]@ == es);
        while k < kn
            invariant
                old(self).wf(),
                self.same_but_words(old(self)),
                w0 == old(self).words@,
                es == old(self).cross()[ix as int],
                es == crossings_upto(w0, ix as int, n as int),
                kn == es.len(),
                n == w0.len(),
                ix < n,
                k <= kn,
                forall|j: int| 0 <= j < es.len() ==> entry_ok(w0, ix as int, #[trigger] es[j]),
                self.words@.len() == n,
                same_slots(w0, self.words@),
                self.words@[ix as int] == w1[ix as int],
                w1[ix as int].placed,
                w1[ix as int].cands() == seq![val],
                val.len() == w0[ix as int].length,
                forall|j: int| 0 <= j < n ==> (#[trigger] self.words@[j]).wf(),
                forall|j: int| 0 <= j < n && j != ix ==> (#[trigger] self.words@[j]).placed == w0[j].placed,
                forall|j: int| 0 <= j < n && j != ix ==> (#[trigger] self.words@[j]).cands() == filtered(w0, es.subrange(0, k as int), val, j),
                forall|j: int| 0 <= j < n ==> (unplace@.contains(j as usize) <==> #[trigger] disagrees(w0, es.subrange(0, k as int), val, j)),
                forall|m: int| 0 <= m < unplace@.len() ==> (#[trigger] unplace@[m]) < n && unplace@[m] != ix,
            decreases kn - k,
        {
            let (b, ai, bi) = self.crossings[ix][k];
            assert(es[k as int] == (b, ai, bi));
            assert(entry_ok(w0, ix as int, es[k as int]));
            let ghost sub = es.subrange(0, k as int + 1);
            assert(sub.drop_last() =~= es.subrange(0, k as int));
            assert(sub.last() == es[k as int]);
            let c = self.words[ix].char_at(ai);
            assert(c == val[ai as int]);
            let ghost before = unplace@;
            if self.words[b].placed {
                assert(self.words@[b as int].wf());
                proof {
                    lemma_filtered_placed(w0, es.subrange(0, k as int), val, b as int);
                }
                let mismatch = self.words[b].char_at(bi) != c;
                if mismatch {
                    unplace.push(b);
                }
                assert forall|j: int| 0 <= j < n implies (unplace@.contains(j as usize) <==> #[trigger] disagrees(w0, sub, val, j)) by {
                    assert(disagrees(w0, sub, val, j) == (disagrees(w0, es.subrange(0, k as int), val, j) || (b as int == j
                        && w0[j].placed && letter(w0[j], bi as int) != val[ai as int])));
                    assert(before.contains(j as usize) == disagrees(w0, es.subrange(0, k as int), val, j));
                    if mismatch {
                        lemma_push_contains(before, b, j as usize);
                        assert(unplace@ == before.push(b));
                    } else {
                        assert(unplace@ == before);
                    }
                }
            } else {
                assert(self.words@[b as int].wf());
                assert forall|q: int| 0 <= q < self.words@[b as int].candidates@.len() implies bi < (#[trigger] self.words@[b as int].candidates@[q])@.len() by {
                    assert(self.words@[b as int].cands()[q] == self.words@[b as int].candidates@[q]@);
                }
                let kept = keep_matching(&self.words[b].candidates, bi, c);
                proof {
                    lemma_keep_letter(self.words@[b as int].cands(), bi as int, c);
                }
                self.words[b].candidates = kept;
                assert(self.words@[b as int].wf());
                assert forall|j: int| 0 <= j < n implies (unplace@.contains(j as usize) <==> #[trigger] disagrees(w0, sub, val, j)) by {
                    assert(disagrees(w0, sub, val, j) == (disagrees(w0, es.subrange(0, k as int), val, j) || (b as int == j
                        && w0[j].placed && letter(w0[j], bi as int) != val[ai as int])));
                    assert(before.contains(j as usize) == disagrees(w0, es.subrange(0, k as int), val, j));
                }
            }
            k = k + 1;
        }
        assert(es.subrange(0, kn as int) =~= es);
        let ghost w2 = self.words@;
        let mut m: usize = 0;
        while m < unplace.len()
            invariant
                old(self).wf(),
                self.same_but_words(old(self)),
                w0 == old(self).words@,
                n == w0.len(),
                ix < n,
                self.words@.len() == n,
                w2.len() == n,
                same_slots(w0, self.words@),
                same_slots(w0, w2),
                self.words@[ix as int] == w2[ix as int],
                m <= unplace@.len(),
                forall|j: int| 0 <= j < n ==> (#[trigger] self.words@[j]).wf(),
                forall|q: int| 0 <= q < unplace@.len() ==> (#[trigger] unplace@[q]) < n && unplace@[q] != ix,
                forall|j: int| 0 <= j < n ==> if unplace@.subrange(0, m as int).contains(j as usize) {
                    !(#[trigger] self.words@[j]).placed && self.words@[j].cands() == Seq::<Seq<char>>::empty()
                } else {
                    self.words@[j] == w2[j]
                },
            decreases unplace@.len() - m,
        {
            let u = unplace[m];
            assert(unplace@[m as int] == u);
            self.words[u].unplace();
            assert(unplace@.subrange(0, m as int + 1) =~= unplace@.subrange(0, m as int).push(u));
            assert(self.words@[u as int].wf());
            proof {
                assert forall|j: int| 0 <= j < n implies (#[trigger] unplace@.subrange(0, m as int + 1).contains(j as usize) <==> (unplace@.subrange(0, m as int).contains(j as usize) || j == u)) by {
                    lemma_push_contains(unplace@.subrange(0, m as int), u, j as usize);
                }
            }
            m = m + 1;
        }
        assert(unplace@.subrange(0, unplace@.len() as int) =~= unplace@);
        let ghost w3 = self.words@;
        proof {
            Board::lemma_wf_kept(old(self), self);
            assert forall|j: int| 0 <= j < n && j != ix implies (#[trigger] w3[j]).placed == (w0[j].placed && !disagrees(w0, es, val, j)) by {
                if unplace@.contains(j as usize) {
                } else {
                }
            }
        }
        let rolled = unplace.len();
        if rolled > 0 {
            assert(disagrees(w0, es, val, unplace@[0] as int));
            self.refresh_candidates(dict);
            proof {
                let w4 = self.words@;
                assert forall|j: int| 0 <= j < n && !(#[trigger] w4[j]).placed && w4[j].key is Some implies w4[j].cands() == looked_up(w4, old(self).cross(), *dict, j) by {
                    lemma_crossings_upto(w0, j, n as int);
                    assert(old(self).cross()[j] == crossings_upto(w0, j, n as int));
                    lemma_hint_stable(w3, w4, old(self).cross()[j], w4[j].length as nat);
                    assert(w3[j].same_slot(&w4[j]));
                }
            }
        }
        rolled
    }

    /// The placed slots that placing slot `ix` with `val` would release: those
    /// that cross it and show another letter at the shared cell.
    pub fn releases(&self, ix: usize, val: &str) -> (r: Vec<usize>)
        requires
            self.wf(),
            ix < self.words@.len(),
            val@.len() == self.words@[ix as int].length,
        ensures
            forall|j: int| 0 <= j < self.words@.len() ==> (r@.contains(j as usize) <==> #[trigger] disagrees(self.words@, self.cross()[ix as int], val@, j)),
    {
        let n = self.words.len();
        let ghost words = self.words@;
        let ghost es = self.cross()[ix as int];
        proof {
            lemma_crossings_upto(words, ix as int, n as int);
        }
        assert(self.crossings@[ix as int]@ == es);
        let list = &self.crossings[ix];
        let mut r: Vec<usize> = Vec::new();
        let mut k: usize = 0;
        while k < list.len()
            invariant
                self.wf(),
                words == self.words@,
                n == words.len(),
                ix < n,
                list@ == es,
                es == crossings_upto(words, ix as int, n as int),
                val@.len() == words[ix as int].length,
                forall|j: int| 0 <= j < es.len() ==> entry_ok(words, ix as int, #[trigger] es[j]),
                k <= es.len(),
                forall|j: int| 0 <= j < n ==> (r@.contains(j as usize) <==> #[trigger] disagrees(words, es.subrange(0, k as int), val@, j)),
            decreases es.len() - k,
        {
            let (b, ai, bi) = list[k];
            assert(entry_ok(words, ix as int, es[k as int]));
            let ghost sub = es.subrange(0, k as int + 1);
            assert(sub.drop_last() =~= es.subrange(0, k as int));
            assert(sub.last() == es[k as int]);
            let ghost before = r@;
            let mut mismatch = false;
            if self.words[b].placed {
                assert(self.words@[b as int].wf());
                mismatch = self.words[b].char_at(bi) != val.get_char(ai);
            }
            if mismatch {
                r.push(b);
            }
            assert forall|j: int| 0 <= j < n implies (r@.contains(j as usize) <==> #[trigger] disagrees(words, sub, val@, j)) by {
                assert(disagrees(words, sub, val@, j) == (disagrees(words, es.subrange(0, k as int), val@, j) || (b as int == j
                    && words[j].placed && letter(words[j], bi as int) != val@[ai as int])));
                if mismatch {
                    lemma_push_contains(before, b, j as usize);
                }
            }
            k = k + 1;
        }
        assert(es.subrange(0, es.len() as int) =~= es);
        r
    }

    /// Places slot `ix`, with `opt_word` where one is given, else with its one
    /// candidate; releases each placed crossing slot that then disagrees, and
    /// narrows the candidates of the free ones.
    pub fn place(&mut self, ix: usize, opt_word: Option<String>, dict: &Dictionary)
        requires
            old(self).wf(),
            dict.wf(),
            ix < old(self).words@.len(),
            match opt_word {
                Some(v) => v@.len() == old(self).words@[ix as int].length,
                None => old(self).words@[ix as int].cands().len() == 1,
            },
        ensures
            final(self).wf(),
            final(self).crossings == old(self).crossings,
            placed_as(
                old(self).words@,
                final(self).words@,
                old(self).cross(),
                ix as int,
                value_of(old(self).words@[ix as int], opt_word),
                *dict,
            ),
            final(self).changed,
            final(self).state == old(self).state,
            final(self).filename == old(self).filename,
            final(self).colors == old(self).colors,
            final(self).width == old(self).width,
            final(self).height == old(self).height,
    {
        self.changed = true;
        self.commit(ix, opt_word, dict);
    }

    /// Releases slot `ix` and refreshes the candidates of the free slots.
    pub fn unplace(&mut self, ix: usize, dict: &Dictionary)
        requires
            old(self).wf(),
            dict.wf(),
            ix < old(self).words@.len(),
        ensures
            final(self).wf(),
            final(self).same_but_words(old(self)),
            unplaced_as(old(self).words@, final(self).words@, old(self).cross(), ix as int, *dict),
    {
        let n = self.words.len();
        self.words[ix].unplace();
        let ghost w1 = self.words@;
        proof {
            assert(self.words@[ix as int].wf());
            Board::lemma_wf_kept(old(self), self);
        }
        self.refresh_candidates(dict);
        proof {
            let w4 = self.words@;
            assert forall|j: int| 0 <= j < n && !(#[trigger] w4[j]).placed && w4[j].key is Some implies w4[j].cands() == looked_up(w4, old(self).cross(), *dict, j) by {
                lemma_crossings_upto(old(self).words@, j, n as int);
                assert(old(self).cross()[j] == crossings_upto(old(self).words@, j, n as int));
                lemma_hint_stable(w1, w4, old(self).cross()[j], w4[j].length as nat);
                assert(w1[j].same_slot(&w4[j]));
            }
        }
    }

    /// The state that the free slots show.
    fn classify(&self) -> (st: State)
        ensures
            st == status_of(self.words@),
    {
        let mut any_open = false;
        let mut any_one = false;
        let mut any_more = false;
        let mut i: usize = 0;
        while i < self.words.len()
            invariant
                i <= self.words@.len(),
                any_open == exists|j: int| 0 <= j < i && !(#[trigger] self.words@[j]).placed,
                any_one == exists|j: int| 0 <= j < i && !(#[trigger] self.words@[j]).placed && self.words@[j].cands().len() == 1,
                any_more == exists|j: int| 0 <= j < i && !(#[trigger] self.words@[j]).placed && self.words@[j].cands().len() >= 2,
            decreases self.words@.len() - i,
        {
            let w = &self.words[i];
            if !w.placed {
                any_open = true;
                if w.candidates.len() == 1 {
                    any_one = true;
                } else if w.candidates.len() >= 2 {
                    any_more = true;
                }
            }
            i = i + 1;
        }
        if !any_open {
            State::Solved
        } else if any_more {
            State::Ambiguous
        } else if any_one {
            State::Unsolved
        } else {
            State::Unsolvable
        }
    }

    /// Places, pass after pass, every free slot that holds exactly one
    /// candidate, until a pass places none; then records the state.
    ///
    /// A placement can release crossing slots, and placements and releases can
    /// undo one another without end. So the solver lets as many placements
    /// release something as there are slots; at the next such placement it
    /// stops and returns `false`. It returns `true` when it stopped because a
    /// pass placed nothing.
    pub fn solve_repeated(&mut self, dict: &Dictionary) -> (settled: bool)
        requires
            old(self).wf(),
            dict.wf(),
        ensures
            final(self).wf(),
            final(self).crossings == old(self).crossings,
            same_slots(old(self).words@, final(self).words@),
            settled ==> at_fixed_point(final(self).words@),
            final(self).state == status_of(final(self).words@),
            exists|ws: Seq<Seq<Word>>, ixs: Seq<int>|
                #[trigger] solve_trace(ws, ixs, old(self).words@, final(self).words@, old(self).cross(), *dict)
                && (consistent(old(self).words@, old(self).cross()) ==> releases_none(ws, ixs, old(self).cross())
                    && ixs.len() <= old(self).words@.len()),
            consistent(old(self).words@, old(self).cross()) ==> settled && consistent(final(self).words@, old(self).cross()),
            old(self).changed ==> final(self).changed,
            final(self).filename == old(self).filename,
            final(self).colors == old(self).colors,
            final(self).width == old(self).width,
            final(self).height == old(self).height,
    {
        let n = self.words.len();
        let mut budget: usize = n;
        let mut settled = true;
        let ghost start = self.words@;
        let ghost cross = self.cross();
        let ghost good = consistent(start, cross);
        let ghost mut ws: Seq<Seq<Word>> = seq![start];
        let ghost mut ixs: Seq<int> = Seq::empty();
        proof {
            lemma_open_count_le(start);
        }
        loop
            invariant_except_break
                settled,
            invariant
                self.wf(),
                dict.wf(),
                n == self.words@.len(),
                self.crossings == old(self).crossings,
                same_slots(old(self).words@, self.words@),
                old(self).changed ==> self.changed,
                self.filename == old(self).filename,
                self.colors == old(self).colors,
                self.width == old(self).width,
                self.height == old(self).height,
                start == old(self).words@,
                cross == old(self).cross(),
                good == consistent(start, cross),
                open_count(start) <= n,
                solve_trace(ws, ixs, start, self.words@, cross, *dict),
                good ==> consistent(self.words@, cross) && budget == n && releases_none(ws, ixs, cross)
                    && open_count(self.words@) + ixs.len() == open_count(start),
            ensures
                self.wf(),
                start == old(self).words@,
                cross == old(self).cross(),
                solve_trace(ws, ixs, start, self.words@, cross, *dict),
                good == consistent(start, cross),
                good ==> settled && consistent(self.words@, cross) && releases_none(ws, ixs, cross) && ixs.len() <= n,
                n == self.words@.len(),
                self.crossings == old(self).crossings,
                same_slots(old(self).words@, self.words@),
                settled ==> at_fixed_point(self.words@),
                old(self).changed ==> self.changed,
                self.filename == old(self).filename,
                self.colors == old(self).colors,
                self.width == old(self).width,
                self.height == old(self).height,
            decreases budget, open_count(self.words@),
        {
            let ghost b0 = budget;
            let ghost w0 = self.words@;
            let mut done = true;
            let mut stopped = false;
            let mut i: usize = 0;
            while i < n
                invariant
                    self.wf(),
                    dict.wf(),
                    n == self.words@.len(),
                    i <= n,
                    self.crossings == old(self).crossings,
                    same_slots(old(self).words@, self.words@),
                    old(self).changed ==> self.changed,
                    self.filename == old(self).filename,
                    self.colors == old(self).colors,
                    self.width == old(self).width,
                    self.height == old(self).height,
                    budget <= b0,
                    w0.len() == n,
                    done ==> budget == b0 && self.words@ == w0,
                    done ==> forall|j: int| 0 <= j < i && !(#[trigger] self.words@[j]).placed ==> self.words@[j].cands().len() != 1,
                    !done && !stopped ==> budget < b0 || open_count(self.words@) < open_count(w0),
                    stopped ==> !done,
                    start == old(self).words@,
                    cross == old(self).cross(),
                    good == consistent(start, cross),
                    open_count(start) <= n,
                    solve_trace(ws, ixs, start, self.words@, cross, *dict),
                    good ==> consistent(self.words@, cross) && budget == n && releases_none(ws, ixs, cross)
                        && open_count(self.words@) + ixs.len() == open_count(start) && !stopped,
                ensures
                    stopped || i >= n,
                decreases n - i,
            {
                if !self.words[i].placed && self.words[i].candidates.len() == 1 {
                    let ghost before = self.words@;
                    let ghost c_before = open_count(before);
                    let ghost val = value_of(before[i as int], None);
                    let ghost pre = *self;
                    let rolled = self.commit(i, None, dict);
                    proof {
                        assert(pre.cross() == cross);
                        assert(commit_step(before, self.words@, i as int, cross, *dict));
                        let ws1 = ws.push(self.words@);
                        let ixs1 = ixs.push(i as int);
                        assert forall|k: int| 0 <= k < ixs1.len() implies #[trigger] commit_step(ws1[k], ws1[k + 1], ixs1[k], cross, *dict) by {
                            if k < ixs.len() {
                                assert(ws1[k] == ws[k] && ws1[k + 1] == ws[k + 1] && ixs1[k] == ixs[k]);
                            } else {
                                assert(ws1[k] == before);
                            }
                        }
                        if good {
                            Board::lemma_commit_consistent(&pre, self.words@, i as int, *dict);
                            assert forall|k: int| 0 <= k < ixs1.len() implies !any_disagrees(ws1[k], cross[ixs1[k]], #[trigger] ws1[k][ixs1[k]].cands()[0]) by {
                                if k < ixs.len() {
                                    assert(ws1[k] == ws[k] && ixs1[k] == ixs[k]);
                                    assert(!any_disagrees(ws[k], cross[ixs[k]], ws[k][ixs[k]].cands()[0]));
                                } else {
                                    assert(ws1[k] == before);
                                }
                            }
                        }
                        ws = ws1;
                        ixs = ixs1;
                    }
                    if rolled == 0 {
                        proof {
                            let es = old(self).cross()[i as int];
                            assert(self.cross() == old(self).cross());
                            assert forall|j: int| 0 <= j < n && j != i implies (#[trigger] before[j]).placed == self.words@[j].placed by {
                                if disagrees(before, old(self).cross()[i as int], val, j) {
                                    assert(any_disagrees(before, old(self).cross()[i as int], val));
                                }
                            }
                            lemma_open_count_place(before, self.words@, i as int);
                        }
                    }
                    assert(good ==> rolled == 0);
                    done = false;
                    if rolled > 0 {
                        if budget == 0 {
                            stopped = true;
                            break;
                        }
                        budget = budget - 1;
                    }
                }
                i = i + 1;
            }
            if stopped {
                settled = false;
                break;
            }
            if done {
                break;
            }
        }
        self.state = self.classify();
        assert(solve_trace(ws, ixs, old(self).words@, self.words@, old(self).cross(), *dict));
        settled
    }

    /// The line that describes slot `i`.
    pub fn format_word(&self, i: usize) -> (r: String)
        requires
            self.wf(),
            i < self.words@.len(),
        ensures
            r@ == word_line(self.words@, self.cross(), i as int),
    {
        let w = &self.words[i];
        let mut v: Vec<char> = Vec::new();
        v.push('[');
        push_decimal(&mut v, i);
        v.push(']');
        v.push(' ');
        let ghost head = v@;
        assert(head =~= seq!['['] + decimal_text(i as nat) + seq![']', ' ']);
        if let Some(k) = &w.key {
            push_str(&mut v, k.as_str());
            v.push(' ');
            v.push('=');
            v.push(' ');
            assert(v@ =~= head + k@ + seq![' ', '=', ' ']);
        }
        let ghost pre = v@;
        let h = self.get_hints(i);
        push_str(&mut v, h.as_str());
        if !w.placed {
            v.push(' ');
            v.push('?');
            assert(v@ =~= pre + (h@ + seq![' ', '?']));
        }
        proof {
            let body = if w.placed { w.cands()[0] } else { spec_hint(self.words@, self.cross(), i as int) + seq![' ', '?'] };
            assert(v@ =~= pre + body);
            match w.key_view() {
                Some(k) => {
                    assert(v@ =~= head + k + seq![' ', '=', ' '] + body);
                },
                None => {
                    assert(v@ =~= head + body);
                },
            }
        }
        string_from_chars(&v)
    }

    /// How slot `i`'s line is shown: `Missing` without candidates,
    /// `Ambiguous` with more than one, else `Plain`.
    pub fn word_style(&self, i: usize) -> (r: WordStyle)
        requires
            i < self.words@.len(),
        ensures
            r == if self.words@[i as int].cands().len() == 0 {
                WordStyle::Missing
            } else if self.words@[i as int].cands().len() > 1 {
                WordStyle::Ambiguous
            } else {
                WordStyle::Plain
            },
    {
        let w = &self.words[i];
        if w.is_missing() {
            WordStyle::Missing
        } else if w.is_ambiguous() {
            WordStyle::Ambiguous
        } else {
            WordStyle::Plain
        }
    }

    /// Gives every free slot with a key the dictionary's words for its key,
    /// length and hint; placed slots and slots without a key keep theirs.
    pub fn refresh_candidates(&mut self, dict: &Dictionary)
        requires
            old(self).wf(),
            dict.wf(),
        ensures
            final(self).wf(),
            final(self).same_but_words(old(self)),
            refreshed(old(self).words@, final(self).words@, old(self).cross(), *dict),
    {
        let ghost w0 = self.words@;
        let n = self.words.len();
        let mut i: usize = 0;
        while i < n
            invariant
                n == w0.len(),
                i <= n,
                old(self).wf(),
                dict.wf(),
                old(self).words@ == w0,
                self.same_but_words(old(self)),
                self.words@.len() == n,
                same_slots(w0, self.words@),
                forall|j: int| 0 <= j < n ==> (#[trigger] self.words@[j]).wf(),
                forall|j: int| 0 <= j < n ==> (#[trigger] self.words@[j]).placed == w0[j].placed,
                forall|j: int| 0 <= j < n && w0[j].placed ==> (#[trigger] self.words@[j]).cands() == w0[j].cands(),
                forall|j: int| 0 <= j < i ==> (#[trigger] self.words@[j]).cands() == refreshed_cands(w0, old(self).cross(), *dict, j),
                forall|j: int| i <= j < n ==> (#[trigger] self.words@[j]).cands() == w0[j].cands(),
            decreases n - i,
        {
            proof {
                Board::lemma_wf_kept(old(self), self);
                lemma_crossings_upto(w0, i as int, n as int);
                assert(self.cross() == old(self).cross());
                assert(self.cross()[i as int] == crossings_upto(w0, i as int, n as int));
                lemma_hint_stable(self.words@, w0, self.cross()[i as int], self.words@[i as int].length as nat);
            }
            let hint = self.get_hints(i);
            if !self.words[i].placed {
                let len = self.words[i].length;
                let found = match &self.words[i].key {
                    Some(k) => Some(dict.lookup(k.as_str(), len, Some(hint.as_str()))),
                    None => None,
                };
                if let Some(c) = found {
                    proof {
                        lemma_matching_members(dict.words_of(self.words@[i as int].key_view()->0), len as nat, hint@);
                    }
                    self.words[i].candidates = c;
                    assert(self.words@[i as int].wf());
                }
            }
            i = i + 1;
        }
        proof {
            Board::lemma_wf_kept(old(self), self);
        }
    }
}

} // verus!
