use vstd::prelude::*;
use crate::text::{chars_of, same_text, string_from_chars, trim, trim_chars};

verus! {

/// Whether `w` agrees with `hint` wherever the hint holds a letter: a `'.'`
/// in the hint stands for any character.
pub open spec fn fits(w: Seq<char>, hint: Seq<char>) -> bool {
    forall|i: int| 0 <= i < w.len() && i < hint.len() ==> hint[i] == '.' || #[trigger] hint[i] == w[i]
}

/// The words of `ws`, in order, that have `length` characters and fit `hint`.
pub open spec fn matching(ws: Seq<Seq<char>>, length: nat, hint: Seq<char>) -> Seq<Seq<char>>
    decreases ws.len(),
{
    if ws.len() == 0 {
        Seq::empty()
    } else {
        let rest = matching(ws.drop_last(), length, hint);
        if ws.last().len() == length && fits(ws.last(), hint) {
            rest.push(ws.last())
        } else {
            rest
        }
    }
}

/// A hint that leaves every one of `length` characters open.
pub open spec fn open_hint(length: nat) -> Seq<char> {
    Seq::new(length, |i: int| '.')
}

/// Every word of `matching(ws, length, hint)` has `length` characters, fits
/// the hint, and is one of `ws`.
pub proof fn lemma_matching_members(ws: Seq<Seq<char>>, length: nat, hint: Seq<char>)
    ensures
        matching(ws, length, hint).len() <= ws.len(),
        forall|j: int| 0 <= j < matching(ws, length, hint).len() ==> {
            &&& (#[trigger] matching(ws, length, hint)[j]).len() == length
            &&& fits(matching(ws, length, hint)[j], hint)
            &&& ws.contains(matching(ws, length, hint)[j])
        },
    decreases ws.len(),
{
    if ws.len() > 0 {
        lemma_matching_members(ws.drop_last(), length, hint);
        let rest = matching(ws.drop_last(), length, hint);
        assert forall|j: int| 0 <= j < rest.len() implies ws.contains(#[trigger] rest[j]) by {
            let k = choose|k: int| 0 <= k < ws.drop_last().len() && ws.drop_last()[k] == rest[j];
            assert(ws[k] == rest[j]);
        }
        assert(ws[ws.len() - 1] == ws.last());
    }
}

/// The words of `ws`, in order, that hold no space.
pub open spec fn without_spaces(ws: Seq<Seq<char>>) -> Seq<Seq<char>>
    decreases ws.len(),
{
    if ws.len() == 0 {
        Seq::empty()
    } else {
        let rest = without_spaces(ws.drop_last());
        if ws.last().contains(' ') {
            rest
        } else {
            rest.push(ws.last())
        }
    }
}

/// The key holds `"xxxx"`, the mark of a key whose word is not known.
pub open spec fn marks_unknown(key: Seq<char>) -> bool {
    exists|i: int| 0 <= i && i + 4 <= key.len() && #[trigger] key.subrange(i, i + 4) == seq!['x', 'x', 'x', 'x']
}

/// A store of candidate words, grouped by key.
///
/// Each key occurs once; a key's words are kept in the order in which they
/// were added.
pub struct Dictionary {
    pub words: Vec<(String, Vec<String>)>,
    pub changed: bool,
    pub filename: String,
}

impl Dictionary {
    /// The entries, as keys and sequences of words.
    pub open spec fn entries(&self) -> Seq<(Seq<char>, Seq<Seq<char>>)> {
        self.words@.map_values(
            |e: (String, Vec<String>)| (e.0@, e.1@.map_values(|w: String| w@)),
        )
    }

    /// No key occurs twice.
    pub open spec fn wf(&self) -> bool {
        forall|i: int, j: int|
            0 <= i < j < self.entries().len() ==> (#[trigger] self.entries()[i]).0
                != (#[trigger] self.entries()[j]).0
    }

    pub open spec fn has_key(&self, key: Seq<char>) -> bool {
        exists|i: int| 0 <= i < self.entries().len() && (#[trigger] self.entries()[i]).0 == key
    }

    /// The words stored under `key`, empty where the key is absent.
    pub open spec fn words_of(&self, key: Seq<char>) -> Seq<Seq<char>> {
        if self.has_key(key) {
            let i = choose|i: int| 0 <= i < self.entries().len() && (#[trigger] self.entries()[i]).0 == key;
            self.entries()[i].1
        } else {
            Seq::empty()
        }
    }

    /// What a lookup returns: the words under `key` of `length` characters
    /// that fit the hint; with no hint, all of them.
    pub open spec fn spec_lookup(&self, key: Seq<char>, length: nat, hint: Option<Seq<char>>) -> Seq<Seq<char>> {
        match hint {
            Some(h) => matching(self.words_of(key), length, h),
            None => matching(self.words_of(key), length, open_hint(length)),
        }
    }

    /// Where entry `i` has key `k`, the words of `k` are those of entry `i`.
    pub proof fn lemma_words_of_entry(&self, i: int)
        requires
            self.wf(),
            0 <= i < self.entries().len(),
        ensures
            self.has_key(self.entries()[i].0),
            self.words_of(self.entries()[i].0) == self.entries()[i].1,
    {
        let key = self.entries()[i].0;
        let k = choose|k: int| 0 <= k < self.entries().len() && (#[trigger] self.entries()[k]).0 == key;
        if k != i {
            if k < i {
                assert(self.entries()[k].0 != self.entries()[i].0);
            } else {
                assert(self.entries()[i].0 != self.entries()[k].0);
            }
        }
    }

    /// Whether the dictionary holds an entry for `key`.
    pub fn contains_key(&self, key: &str) -> (r: bool)
        requires
            self.wf(),
        ensures
            r == self.has_key(key@),
    {
        self.find_key(key).is_some()
    }

    /// How many keys the dictionary holds.
    pub fn entry_count(&self) -> (r: usize)
        ensures
            r == self.entries().len(),
    {
        self.words.len()
    }

    /// The key of entry `i` and its words.
    pub fn entry_at(&self, i: usize) -> (r: (&String, &Vec<String>))
        requires
            i < self.entries().len(),
        ensures
            r.0@ == self.entries()[i as int].0,
            r.1@.map_values(|w: String| w@) == self.entries()[i as int].1,
    {
        (&self.words[i].0, &self.words[i].1)
    }

    pub fn new() -> (r: Self)
        ensures
            r.wf(),
            r.entries() == Seq::<(Seq<char>, Seq<Seq<char>>)>::empty(),
            !r.changed,
            r.filename@ == Seq::<char>::empty(),
    {
        Self { words: Vec::new(), changed: false, filename: String::new() }
    }

    /// The position of `key` among the entries, if it is there.
    fn find_key(&self, key: &str) -> (r: Option<usize>)
        requires
            self.wf(),
        ensures
            match r {
                Some(i) => i < self.entries().len() && self.entries()[i as int].0 == key@
                    && self.words_of(key@) == self.entries()[i as int].1,
                None => !self.has_key(key@) && self.words_of(key@) == Seq::<Seq<char>>::empty(),
            },
    {
        let mut i: usize = 0;
        while i < self.words.len()
            invariant
                i <= self.words@.len(),
                self.wf(),
                self.entries().len() == self.words@.len(),
                forall|j: int| 0 <= j < i ==> (#[trigger] self.entries()[j]).0 != key@,
            decreases self.words@.len() - i,
        {
            if same_text(self.words[i].0.as_str(), key) {
                proof {
                    assert(self.entries()[i as int].0 == key@);
                    let k = choose|k: int| 0 <= k < self.entries().len() && (#[trigger] self.entries()[k]).0 == key@;
                    if k != i as int {
                        if k < i as int {
                            assert(self.entries()[k].0 != self.entries()[i as int].0);
                        } else {
                            assert(self.entries()[i as int].0 != self.entries()[k].0);
                        }
                    }
                }
                return Some(i);
            }
            i = i + 1;
        }
        None
    }

    /// Adds `word` under `key`, unless it is there already; marks the
    /// dictionary changed when it adds.
    pub fn add_word(&mut self, key: &str, word: &str)
        requires
            old(self).wf(),
        ensures
            final(self).wf(),
            forall|k: Seq<char>| #[trigger] final(self).words_of(k) == if k == key@ && !old(self).words_of(key@).contains(word@) {
                old(self).words_of(key@).push(word@)
            } else {
                old(self).words_of(k)
            },
            final(self).changed == (old(self).changed || !old(self).words_of(key@).contains(word@)),
            final(self).filename == old(self).filename,
    {
        let ghost old_ws = self.words_of(key@);
        match self.find_key(key) {
            Some(i) => {
                assert(self.words@[i as int].1@.map_values(|w: String| w@) == old_ws);
                if contains_word(&self.words[i].1, word) {
                    return;
                }
                let ghost d0 = self.entries();
                self.words[i].1.push(word.to_owned());
                self.changed = true;
                proof {
                    assert(self.words@[i as int].1@.map_values(|w: String| w@) =~= old_ws.push(word@));
                    assert(self.entries() =~= d0.update(i as int, (key@, old_ws.push(word@))));
                    self.lemma_words_of_entry(i as int);
                    assert forall|k: Seq<char>| #[trigger] self.words_of(k) == if k == key@ && !old_ws.contains(word@) {
                        old_ws.push(word@)
                    } else {
                        old(self).words_of(k)
                    } by {
                        if k != key@ {
                            if old(self).has_key(k) {
                                let q = choose|q: int| 0 <= q < d0.len() && (#[trigger] d0[q]).0 == k;
                                old(self).lemma_words_of_entry(q);
                                self.lemma_words_of_entry(q);
                            } else {
                                if self.has_key(k) {
                                    let q = choose|q: int| 0 <= q < self.entries().len() && (#[trigger] self.entries()[q]).0 == k;
                                    assert(d0[q].0 == k);
                                }
                            }
                        }
                    }
                }
            },
            None => {
                let ghost d0 = self.entries();
                let mut list: Vec<String> = Vec::new();
                list.push(word.to_owned());
                assert(list@.map_values(|w: String| w@) =~= seq![word@]);
                self.words.push((key.to_owned(), list));
                self.changed = true;
                proof {
                    assert(self.entries() =~= d0.push((key@, seq![word@])));
                    assert(old_ws.push(word@) =~= seq![word@]);
                    self.lemma_words_of_entry(d0.len() as int);
                    assert forall|k: Seq<char>| #[trigger] self.words_of(k) == if k == key@ && !old_ws.contains(word@) {
                        old_ws.push(word@)
                    } else {
                        old(self).words_of(k)
                    } by {
                        if k != key@ {
                            if old(self).has_key(k) {
                                let q = choose|q: int| 0 <= q < d0.len() && (#[trigger] d0[q]).0 == k;
                                old(self).lemma_words_of_entry(q);
                                self.lemma_words_of_entry(q);
                            } else {
                                if self.has_key(k) {
                                    let q = choose|q: int| 0 <= q < self.entries().len() && (#[trigger] self.entries()[q]).0 == k;
                                    assert(d0[q].0 == k);
                                }
                            }
                        }
                    }
                }
            },
        }
    }

    /// Stores `words` under `key` in place of what was there, and marks the
    /// dictionary changed.
    pub fn set_words(&mut self, key: &str, words: Vec<String>)
        requires
            old(self).wf(),
        ensures
            final(self).wf(),
            forall|k: Seq<char>| #[trigger] final(self).words_of(k) == if k == key@ {
                words@.map_values(|w: String| w@)
            } else {
                old(self).words_of(k)
            },
            final(self).has_key(key@),
            final(self).changed,
            final(self).filename == old(self).filename,
    {
        let ghost d0 = self.entries();
        let ghost ws = words@.map_values(|w: String| w@);
        let i = match self.find_key(key) {
            Some(i) => {
                self.words[i].1 = words;
                assert(self.entries() =~= d0.update(i as int, (key@, ws)));
                i
            },
            None => {
                self.words.push((key.to_owned(), words));
                assert(self.entries() =~= d0.push((key@, ws)));
                self.words.len() - 1
            },
        };
        self.changed = true;
        proof {
            self.lemma_words_of_entry(i as int);
            assert forall|k: Seq<char>| #[trigger] self.words_of(k) == if k == key@ { ws } else { old(self).words_of(k) } by {
                if k != key@ {
                    if old(self).has_key(k) {
                        let q = choose|q: int| 0 <= q < d0.len() && (#[trigger] d0[q]).0 == k;
                        old(self).lemma_words_of_entry(q);
                        self.lemma_words_of_entry(q);
                    } else {
                        if self.has_key(k) {
                            let q = choose|q: int| 0 <= q < self.entries().len() && (#[trigger] self.entries()[q]).0 == k;
                            assert(d0[q].0 == k);
                        }
                    }
                }
            }
        }
    }

    /// Stores under `key` the words found for it, trimmed, leaving out those
    /// that hold a space, in place of what was there.
    pub fn add_found_words(&mut self, key: &str, found: &Vec<String>)
        requires
            old(self).wf(),
        ensures
            final(self).wf(),
            forall|k: Seq<char>| #[trigger] final(self).words_of(k) == if k == key@ {
                without_spaces(found@.map_values(|w: String| trim(w@)))
            } else {
                old(self).words_of(k)
            },
            final(self).changed,
            final(self).filename == old(self).filename,
    {
        let ghost fs = found@.map_values(|w: String| trim(w@));
        let mut kept: Vec<String> = Vec::new();
        let mut j: usize = 0;
        while j < found.len()
            invariant
                j <= found@.len(),
                fs == found@.map_values(|w: String| trim(w@)),
                kept@.map_values(|w: String| w@) == without_spaces(fs.subrange(0, j as int)),
            decreases found@.len() - j,
        {
            let ghost before = kept@;
            assert(fs.subrange(0, j as int + 1).drop_last() =~= fs.subrange(0, j as int));
            assert(fs.subrange(0, j as int + 1).last() == trim(found@[j as int]@));
            let t = trim_chars(&chars_of(found[j].as_str()));
            if !has_space(&t) {
                let w = string_from_chars(&t);
                kept.push(w);
                assert(kept@.map_values(|w: String| w@) =~= before.map_values(|w: String| w@).push(t@));
            }
            j = j + 1;
        }
        assert(fs.subrange(0, found@.len() as int) =~= fs);
        self.set_words(key, kept);
    }

    /// Whether `key` holds `"xxxx"`, the mark of a word that is not known.
    pub fn is_unknown_key(key: &str) -> (r: bool)
        ensures
            r == marks_unknown(key@),
    {
        let n = key.unicode_len();
        if n < 4 {
            return false;
        }
        let mut i: usize = 0;
        while i <= n - 4
            invariant
                n == key@.len(),
                n >= 4,
                i <= n - 3,
                forall|q: int| 0 <= q < i ==> #[trigger] key@.subrange(q, q + 4) != seq!['x', 'x', 'x', 'x'],
            decreases n - i,
        {
            if key.get_char(i) == 'x' && key.get_char(i + 1) == 'x' && key.get_char(i + 2) == 'x' && key.get_char(i + 3) == 'x' {
                assert(key@.subrange(i as int, i + 4) =~= seq!['x', 'x', 'x', 'x']);
                return true;
            }
            proof {
                if key@.subrange(i as int, i + 4) == seq!['x', 'x', 'x', 'x'] {
                    assert(key@.subrange(i as int, i + 4)[0] == key@[i as int]);
                    assert(key@.subrange(i as int, i + 4)[1] == key@[i + 1]);
                    assert(key@.subrange(i as int, i + 4)[2] == key@[i + 2]);
                    assert(key@.subrange(i as int, i + 4)[3] == key@[i + 3]);
                }
            }
            i = i + 1;
        }
        false
    }

    /// The words stored under `key` that have `length` characters and fit the
    /// hint, in the order in which they were stored.
    pub fn lookup(&self, key: &str, length: usize, opt_hint: Option<&str>) -> (r: Vec<String>)
        requires
            self.wf(),
        ensures
            r@.map_values(|w: String| w@) == self.spec_lookup(
                key@,
                length as nat,
                match opt_hint {
                    Some(h) => Some(h@),
                    None => None,
                },
            ),
    {
        let ghost hint: Seq<char> = match opt_hint {
            Some(h) => h@,
            None => open_hint(length as nat),
        };
        let mut ret: Vec<String> = Vec::new();
        match self.find_key(key) {
            None => {
                assert(ret@.map_values(|w: String| w@) =~= Seq::<Seq<char>>::empty());
            },
            Some(ix) => {
                let list = &self.words[ix].1;
                let ghost ws = list@.map_values(|w: String| w@);
                assert(ws == self.words_of(key@));
                let mut j: usize = 0;
                while j < list.len()
                    invariant
                        j <= list@.len(),
                        ws == list@.map_values(|w: String| w@),
                        ret@.map_values(|w: String| w@) == matching(ws.subrange(0, j as int), length as nat, hint),
                        match opt_hint {
                            Some(h) => hint == h@,
                            None => hint == open_hint(length as nat),
                        },
                    decreases list@.len() - j,
                {
                    let w = &list[j];
                    let keep = w.as_str().unicode_len() == length && match opt_hint {
                        None => true,
                        Some(h) => word_fits(w.as_str(), h),
                    };
                    let ghost before = ret@;
                    proof {
                        assert(ws.subrange(0, j as int + 1).drop_last() =~= ws.subrange(0, j as int));
                        assert(ws.subrange(0, j as int + 1).last() == w@);
                        if opt_hint is None {
                            assert(fits(w@, hint));
                        }
                    }
                    if keep {
                        ret.push(w.clone());
                        assert(ret@.map_values(|w: String| w@) =~= before.map_values(|w: String| w@).push(w@));
                    }
                    j = j + 1;
                }
                assert(ws.subrange(0, list@.len() as int) =~= ws);
            },
        }
        ret
    }
}

/// Whether `v` holds a space.
fn has_space(v: &Vec<char>) -> (r: bool)
    ensures
        r == v@.contains(' '),
{
    let mut i: usize = 0;
    while i < v.len()
        invariant
            i <= v@.len(),
            forall|q: int| 0 <= q < i ==> v@[q] != ' ',
        decreases v@.len() - i,
    {
        if v[i] == ' ' {
            assert(v@[i as int] == ' ');
            return true;
        }
        i = i + 1;
    }
    false
}

/// `s` with every occurrence of `pat`, read from the left, taken out.
pub open spec fn remove_all(s: Seq<char>, pat: Seq<char>) -> Seq<char>
    decreases s.len(),
{
    if pat.len() == 0 || s.len() < pat.len() {
        s
    } else if s.subrange(0, pat.len() as int) == pat {
        remove_all(s.subrange(pat.len() as int, s.len() as int), pat)
    } else {
        seq![s[0]] + remove_all(s.subrange(1, s.len() as int), pat)
    }
}

/// What a listing page gives as the link to its next page: the text after
/// `shFunc.setNextLink('`, with every `');` taken out; `None` where the text
/// does not start so, or nothing is left.
pub open spec fn next_link_of(s: Seq<char>) -> Option<Seq<char>> {
    let prefix = "shFunc.setNextLink('"@;
    if s.len() >= prefix.len() && s.subrange(0, prefix.len() as int) == prefix {
        let rest = remove_all(s.subrange(prefix.len() as int, s.len() as int), "');"@);
        if rest.len() > 0 { Some(rest) } else { None }
    } else {
        None
    }
}

/// The link to the next page of a word listing, read from the value that
/// the page's pager holds.
pub fn next_page_link(value: &str) -> (r: Option<String>)
    ensures
        match r {
            Some(l) => next_link_of(value@) == Some(l@),
            None => next_link_of(value@) is None,
        },
{
    let prefix = "shFunc.setNextLink('";
    let pat = "');";
    proof {
        reveal_strlit("shFunc.setNextLink('");
        reveal_strlit("');");
    }
    let s = chars_of(value);
    let p = chars_of(prefix);
    let q = chars_of(pat);
    let n = s.len();
    let m = p.len();
    if n < m {
        return None;
    }
    let mut i: usize = 0;
    while i < m
        invariant
            m == p@.len(),
            p@ == "shFunc.setNextLink('"@,
            m <= n,
            n == s@.len(),
            s@ == value@,
            i <= m,
            s@.subrange(0, i as int) == p@.subrange(0, i as int),
        decreases m - i,
    {
        if s[i] != p[i] {
            assert(s@.subrange(0, m as int)[i as int] != p@[i as int]);
            return None;
        }
        assert(s@.subrange(0, i as int + 1) =~= s@.subrange(0, i as int).push(s@[i as int]));
        assert(p@.subrange(0, i as int + 1) =~= p@.subrange(0, i as int).push(p@[i as int]));
        i = i + 1;
    }
    assert(p@.subrange(0, m as int) =~= p@);
    let ghost rest = s@.subrange(m as int, n as int);
    let mut out: Vec<char> = Vec::new();
    let mut j: usize = m;
    assert(s@.subrange(j as int, n as int) == rest);
    while j < n
        invariant
            m <= j <= n,
            n == s@.len(),
            q@ == "');"@,
            q@.len() == 3,
            out@ + remove_all(s@.subrange(j as int, n as int), q@) == remove_all(rest, q@),
        decreases n - j,
    {
        let ghost tail = s@.subrange(j as int, n as int);
        if n - j >= 3 && s[j] == q[0] && s[j + 1] == q[1] && s[j + 2] == q[2] {
            assert(tail.subrange(0, 3) =~= q@);
            assert(tail.subrange(3, tail.len() as int) =~= s@.subrange(j + 3, n as int));
            j = j + 3;
        } else {
            proof {
                if tail.len() >= 3 {
                    if tail.subrange(0, 3) == q@ {
                        assert(tail.subrange(0, 3)[0] == q@[0]);
                        assert(tail.subrange(0, 3)[1] == q@[1]);
                        assert(tail.subrange(0, 3)[2] == q@[2]);
                    }
                }
                assert(tail.subrange(1, tail.len() as int) =~= s@.subrange(j + 1, n as int));
            }
            let ghost o0 = out@;
            out.push(s[j]);
            assert(out@ + remove_all(s@.subrange(j as int + 1, n as int), q@) =~= o0 + (seq![s@[j as int]] + remove_all(s@.subrange(j as int + 1, n as int), q@)));
            j = j + 1;
        }
    }
    assert(out@ =~= out@ + remove_all(s@.subrange(n as int, n as int), q@));
    if out.len() == 0 {
        return None;
    }
    Some(string_from_chars(&out))
}

/// Whether `list` holds `word`.
fn contains_word(list: &Vec<String>, word: &str) -> (r: bool)
    ensures
        r == list@.map_values(|w: String| w@).contains(word@),
{
    let ghost ws = list@.map_values(|w: String| w@);
    let mut j: usize = 0;
    while j < list.len()
        invariant
            ws == list@.map_values(|w: String| w@),
            j <= list@.len(),
            forall|q: int| 0 <= q < j ==> ws[q] != word@,
        decreases list@.len() - j,
    {
        assert(ws[j as int] == list@[j as int]@);
        if same_text(list[j].as_str(), word) {
            assert(ws.contains(word@));
            return true;
        }
        j = j + 1;
    }
    false
}

/// Whether `w` agrees with `hint` wherever the hint holds a letter.
fn word_fits(w: &str, hint: &str) -> (r: bool)
    ensures
        r == fits(w@, hint@),
{
    let n = w.unicode_len();
    let m = hint.unicode_len();
    let mut i: usize = 0;
    while i < n && i < m
        invariant
            n == w@.len(),
            m == hint@.len(),
            i <= n,
            forall|k: int| 0 <= k < i ==> hint@[k] == '.' || #[trigger] hint@[k] == w@[k],
        decreases n - i,
    {
        let b = hint.get_char(i);
        if b != '.' && b != w.get_char(i) {
            return false;
        }
        i = i + 1;
    }
    true
}

} // verus!
