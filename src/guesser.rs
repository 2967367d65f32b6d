use vstd::prelude::*;

verus! {

/// Solver state of a word-guessing game: the words still possible, the
/// letters already proposed, and the revealed pattern of the secret word.
pub struct Guesser<'a> {
    pub remaining_words: Vec<&'a str>,
    pub guessed: Vec<char>,
    pub word: Vec<Option<char>>,
}

/// Every slot of the pattern holds a known letter.
pub open spec fn all_known(pattern: Seq<Option<char>>) -> bool {
    forall|i: int| 0 <= i < pattern.len() ==> (#[trigger] pattern[i]) is Some
}

/// What a slot of the pattern allows at its position: the known letter, or,
/// where the slot is unknown, any letter not yet guessed.
pub open spec fn slot_allows(slot: Option<char>, c: char, guessed: Seq<char>) -> bool {
    match slot {
        Some(k) => c == k,
        None => !guessed.contains(c),
    }
}

/// A word is consistent with the pattern and the guessed letters: same
/// length, and every position allowed by its slot.
pub open spec fn fits(w: Seq<char>, pattern: Seq<Option<char>>, guessed: Seq<char>) -> bool {
    &&& w.len() == pattern.len()
    &&& forall|i: int| 0 <= i < w.len() ==> slot_allows(pattern[i], #[trigger] w[i], guessed)
}

/// The words of `words`, in order, that fit the pattern and the guessed letters.
pub open spec fn survivors<'a>(
    words: Seq<&'a str>,
    pattern: Seq<Option<char>>,
    guessed: Seq<char>,
) -> Seq<&'a str> {
    words.filter(|w: &'a str| fits(w@, pattern, guessed))
}

/// Number of occurrences of `c` in `w`.
pub open spec fn occ(w: Seq<char>, c: char) -> nat
    decreases w.len(),
{
    if w.len() == 0 {
        0
    } else {
        occ(w.drop_last(), c) + if w.last() == c {
            1nat
        } else {
            0nat
        }
    }
}

/// Number of occurrences of `c` summed over all words.
pub open spec fn total<'a>(words: Seq<&'a str>, c: char) -> nat
    decreases words.len(),
{
    if words.len() == 0 {
        0
    } else {
        total(words.drop_last(), c) + occ(words.last()@, c)
    }
}

/// Number of letters summed over all words.
pub open spec fn letters<'a>(words: Seq<&'a str>) -> nat
    decreases words.len(),
{
    if words.len() == 0 {
        0
    } else {
        letters(words.drop_last()) + words.last()@.len()
    }
}

/// `c` occurs in at least one of the words.
pub open spec fn appears<'a>(words: Seq<&'a str>, c: char) -> bool {
    exists|k: int, j: int|
        0 <= k < words.len() && 0 <= j < words[k]@.len() && #[trigger] words[k]@[j] == c
}

/// `c` occurs in the words and has not been guessed yet.
pub open spec fn open_letter<'a>(words: Seq<&'a str>, guessed: Seq<char>, c: char) -> bool {
    appears(words, c) && !guessed.contains(c)
}

/// `c` ranks at least as high as `d`: more occurrences, or as many and a
/// letter no smaller.
pub open spec fn ranks_over<'a>(words: Seq<&'a str>, c: char, d: char) -> bool {
    total(words, d) < total(words, c) || (total(words, d) == total(words, c) && d <= c)
}

/// `r` is the letter to propose next: the open letter of highest rank, or
/// `None` when no letter is open.
pub open spec fn is_choice<'a>(words: Seq<&'a str>, guessed: Seq<char>, r: Option<char>) -> bool {
    match r {
        None => forall|d: char| !open_letter(words, guessed, d),
        Some(c) => open_letter(words, guessed, c) && forall|d: char|
            open_letter(words, guessed, d) ==> ranks_over(words, c, d),
    }
}

proof fn lemma_occ_le(w: Seq<char>, c: char)
    ensures
        occ(w, c) <= w.len(),
    decreases w.len(),
{
    if w.len() > 0 {
        lemma_occ_le(w.drop_last(), c);
    }
}

proof fn lemma_letters_take<'a>(words: Seq<&'a str>, k: int)
    requires
        0 <= k <= words.len(),
    ensures
        letters(words.take(k)) <= letters(words),
    decreases words.len() - k,
{
    if k < words.len() {
        lemma_letters_take(words, k + 1);
        assert(words.take(k + 1).drop_last() =~= words.take(k));
    } else {
        assert(words.take(k) =~= words);
    }
}

/// `c` stands revealed in some slot of the pattern.
pub open spec fn revealed(pattern: Seq<Option<char>>, c: char) -> bool {
    pattern.contains(Some(c))
}

/// The guessed letters, in order, that the pattern does not reveal.
pub open spec fn wrong_letters(pattern: Seq<Option<char>>, guessed: Seq<char>) -> Seq<char> {
    guessed.filter(|c: char| !revealed(pattern, c))
}

/// A pattern of `len` unknown slots.
fn unknown_pattern(len: usize) -> (r: Vec<Option<char>>)
    ensures
        r@ == Seq::new(len as nat, |_i: int| None::<char>),
{
    let mut r: Vec<Option<char>> = Vec::new();
    let mut i: usize = 0;
    while i < len
        invariant
            i <= len,
            r@ == Seq::new(i as nat, |_i: int| None::<char>),
        decreases len - i,
    {
        r.push(None);
        i = i + 1;
        assert(r@ =~= Seq::new(i as nat, |_i: int| None::<char>));
    }
    r
}

fn has_char(v: &Vec<char>, c: char) -> (r: bool)
    ensures
        r == v@.contains(c),
{
    let mut i: usize = 0;
    while i < v.len()
        invariant
            i <= v@.len(),
            forall|k: int| 0 <= k < i ==> v@[k] != c,
        decreases v@.len() - i,
    {
        if v[i] == c {
            return true;
        }
        i = i + 1;
    }
    false
}

fn word_fits(w: &str, pattern: &Vec<Option<char>>, guessed: &Vec<char>) -> (r: bool)
    ensures
        r == fits(w@, pattern@, guessed@),
{
    let n = w.unicode_len();
    if n != pattern.len() {
        return false;
    }
    let mut i: usize = 0;
    while i < n
        invariant
            i <= n,
            n == w@.len(),
            n == pattern@.len(),
            forall|k: int| 0 <= k < i ==> slot_allows(pattern@[k], #[trigger] w@[k], guessed@),
        decreases n - i,
    {
        let c = w.get_char(i);
        let ok = match pattern[i] {
            Some(k) => c == k,
            None => !has_char(guessed, c),
        };
        if !ok {
            return false;
        }
        i = i + 1;
    }
    true
}

fn count_in(words: &Vec<&str>, c: char) -> (r: usize)
    requires
        letters(words@) <= usize::MAX,
    ensures
        r == total(words@, c),
{
    let mut r: usize = 0;
    let mut k: usize = 0;
    while k < words.len()
        invariant
            k <= words@.len(),
            letters(words@) <= usize::MAX,
            r == total(words@.take(k as int), c),
            r <= letters(words@.take(k as int)),
        decreases words@.len() - k,
    {
        let w = words[k];
        let n = w.unicode_len();
        let ghost base = r;
        let mut j: usize = 0;
        proof {
            lemma_letters_take(words@, k + 1);
            assert(words@.take(k + 1).drop_last() =~= words@.take(k as int));
            assert(w@.take(0) =~= Seq::<char>::empty());
        }
        while j < n
            invariant
                j <= n,
                n == w@.len(),
                r == base + occ(w@.take(j as int), c),
                r <= base + j,
                base + n <= usize::MAX,
            decreases n - j,
        {
            proof {
                assert(w@.take(j + 1).drop_last() =~= w@.take(j as int));
            }
            if w.get_char(j) == c {
                r = r + 1;
            }
            j = j + 1;
        }
        proof {
            assert(w@.take(j as int) =~= w@);
        }
        k = k + 1;
    }
    proof {
        assert(words@.take(k as int) =~= words@);
    }
    r
}

fn reveals(pattern: &Vec<Option<char>>, c: char) -> (r: bool)
    ensures
        r == revealed(pattern@, c),
{
    let mut i: usize = 0;
    while i < pattern.len()
        invariant
            i <= pattern@.len(),
            forall|k: int| 0 <= k < i ==> pattern@[k] != Some(c),
        decreases pattern@.len() - i,
    {
        if pattern[i] == Some(c) {
            assert(pattern@[i as int] == Some(c));
            return true;
        }
        i = i + 1;
    }
    false
}

impl<'a> Guesser<'a> {
    /// No letter has been guessed twice.
    pub open spec fn wf(&self) -> bool {
        self.guessed@.no_duplicates()
    }

    /// Starts a game over a word list that the caller hands over.
    pub fn new_from_default(words: Vec<&'a str>, len: usize) -> (r: Self)
        ensures
            r.remaining_words@ == words@,
            r.guessed@ == Seq::<char>::empty(),
            r.wf(),
            r.word@ == Seq::new(len as nat, |_i: int| None::<char>),
    {
        Guesser { remaining_words: words, guessed: Vec::new(), word: unknown_pattern(len) }
    }

    /// Starts a game over a copy of the given word list.
    pub fn new_from_dict(dict: &[&'a str], len: usize) -> (r: Self)
        ensures
            r.remaining_words@ == dict@,
            r.guessed@ == Seq::<char>::empty(),
            r.wf(),
            r.word@ == Seq::new(len as nat, |_i: int| None::<char>),
    {
        Guesser { remaining_words: vstd::slice::slice_to_vec(dict), guessed: Vec::new(), word: unknown_pattern(len) }
    }


    /// Keeps exactly the remaining words that fit the current pattern and
    /// guessed letters, in their order.
    pub fn elim(&mut self)
        ensures
            final(self).remaining_words@ == survivors(
                old(self).remaining_words@,
                old(self).word@,
                old(self).guessed@,
            ),
            final(self).word@ == old(self).word@,
            final(self).guessed@ == old(self).guessed@,
    {
        let mut kept: Vec<&'a str> = Vec::new();
        let mut i: usize = 0;
        while i < self.remaining_words.len()
            invariant
                i <= self.remaining_words@.len(),
                kept@ == survivors(self.remaining_words@.take(i as int), self.word@, self.guessed@),
            decreases self.remaining_words@.len() - i,
        {
            let w = self.remaining_words[i];
            if word_fits(w, &self.word, &self.guessed) {
                kept.push(w);
            }
            proof {
                let ws = self.remaining_words@;
                assert(ws.take(i + 1) =~= ws.take(i as int).push(w));
                ws.take(i as int).lemma_filter_push(
                    w,
                    |x: &'a str| fits(x@, self.word@, self.guessed@),
                );
            }
            i = i + 1;
        }
        proof {
            assert(self.remaining_words@.take(i as int) =~= self.remaining_words@);
        }
        self.remaining_words = kept;
    }

    /// Proposes the open letter with the most occurrences over the remaining
    /// words, the greatest letter among equals, and records it as guessed.
    /// Returns `None`, changing nothing, when no letter is open.
    pub fn guess(&mut self) -> (r: Option<char>)
        requires
            letters(old(self).remaining_words@) <= usize::MAX,
        ensures
            is_choice(old(self).remaining_words@, old(self).guessed@, r),
            match r {
                Some(c) => {
                    &&& !old(self).guessed@.contains(c)
                    &&& final(self).guessed@ == old(self).guessed@.push(c)
                },
                None => final(self).guessed@ == old(self).guessed@,
            },
            final(self).remaining_words@ == old(self).remaining_words@,
            final(self).word@ == old(self).word@,
            old(self).wf() ==> final(self).wf(),
    {
        let ghost ws = self.remaining_words@;
        let ghost gs = self.guessed@;
        let mut seen: Vec<char> = Vec::new();
        let mut found = false;
        let mut top: char = ' ';
        let mut top_n: usize = 0;
        let mut k: usize = 0;
        while k < self.remaining_words.len()
            invariant
                ws == self.remaining_words@,
                gs == self.guessed@,
                k <= ws.len(),
                letters(ws) <= usize::MAX,
                forall|kk: int, jj: int|
                    0 <= kk < k && 0 <= jj < ws[kk]@.len() && !gs.contains(#[trigger] ws[kk]@[jj])
                        ==> seen@.contains(ws[kk]@[jj]),
                forall|x: char|
                    #![trigger seen@.contains(x)]
                    seen@.contains(x) ==> open_letter(ws, gs, x) && found && ranks_over(ws, top, x),
                !found ==> seen@.len() == 0,
                found ==> seen@.contains(top) && top_n == total(ws, top),
            decreases ws.len() - k,
        {
            let w = self.remaining_words[k];
            let n = w.unicode_len();
            let mut j: usize = 0;
            while j < n
                invariant
                    ws == self.remaining_words@,
                    gs == self.guessed@,
                    k < ws.len(),
                    w == ws[k as int],
                    j <= n,
                    n == w@.len(),
                    letters(ws) <= usize::MAX,
                    forall|kk: int, jj: int|
                        0 <= kk <= k && 0 <= jj < ws[kk]@.len() && (kk < k || jj < j) && !gs.contains(
                            #[trigger] ws[kk]@[jj],
                        ) ==> seen@.contains(ws[kk]@[jj]),
                    forall|x: char|
                        #![trigger seen@.contains(x)]
                        seen@.contains(x) ==> open_letter(ws, gs, x) && found && ranks_over(ws, top, x),
                    !found ==> seen@.len() == 0,
                    found ==> seen@.contains(top) && top_n == total(ws, top),
                decreases n - j,
            {
                let c = w.get_char(j);
                if !has_char(&self.guessed, c) && !has_char(&seen, c) {
                    proof {
                        assert(ws[k as int]@[j as int] == c);
                        assert(appears(ws, c));
                    }
                    let cnt = count_in(&self.remaining_words, c);
                    let ghost prev = seen@;
                    seen.push(c);
                    proof {
                        assert forall|x: char| seen@.contains(x) implies x == c || prev.contains(x) by {
                            if x != c {
                                let i = choose|i: int| 0 <= i < seen@.len() && seen@[i] == x;
                                assert(prev[i] == x);
                            }
                        }
                        assert(seen@[prev.len() as int] == c);
                    }
                    let ghost old_found = found;
                    let ghost old_top = top;
                    if !found || cnt > top_n || (cnt == top_n && c > top) {
                        found = true;
                        top = c;
                        top_n = cnt;
                    }
                    proof {
                        assert forall|y: char| prev.contains(y) implies seen@.contains(y) by {
                            let i = choose|i: int| 0 <= i < prev.len() && prev[i] == y;
                            assert(seen@[i] == y);
                        }
                        assert forall|x: char|
                            #![trigger seen@.contains(x)]
                            seen@.contains(x) implies open_letter(ws, gs, x) && found
                                && ranks_over(ws, top, x) by {
                            if x != c {
                                assert(prev.contains(x));
                                assert(ranks_over(ws, old_top, x));
                            }
                        }
                        assert(seen@.contains(top)) by {
                            if top != c {
                                let i = choose|i: int| 0 <= i < prev.len() && prev[i] == top;
                                assert(seen@[i] == top);
                            }
                        }
                    }
                }
                proof {
                    assert forall|kk: int, jj: int|
                        0 <= kk <= k && 0 <= jj < ws[kk]@.len() && (kk < k || jj < j + 1) && !gs.contains(
                            #[trigger] ws[kk]@[jj],
                        ) implies seen@.contains(ws[kk]@[jj]) by {
                        if kk == k && jj == j {
                            assert(ws[kk]@[jj] == c);
                        }
                    }
                }
                j = j + 1;
            }
            k = k + 1;
        }
        if found {
            self.guessed.push(top);
            proof {
                assert(self.guessed@.last() == top);
                assert(self.guessed@.drop_last() =~= gs);
            }
            Some(top)
        } else {
            proof {
                assert forall|d: char| !open_letter(ws, gs, d) by {
                    if open_letter(ws, gs, d) {
                        let (kk, jj) = choose|kk: int, jj: int|
                            0 <= kk < ws.len() && 0 <= jj < ws[kk]@.len() && #[trigger] ws[kk]@[jj]
                                == d;
                        assert(seen@.contains(d));
                    }
                }
            }
            None
        }
    }

    /// The game is won when every slot of the pattern is known.
    pub fn win(&self) -> (r: bool)
        ensures
            r == all_known(self.word@),
    {
        let mut i: usize = 0;
        while i < self.word.len()
            invariant
                i <= self.word@.len(),
                forall|k: int| 0 <= k < i ==> (#[trigger] self.word@[k]) is Some,
            decreases self.word@.len() - i,
        {
            if self.word[i].is_none() {
                return false;
            }
            i = i + 1;
        }
        true
    }
    /// Number of guessed letters that the pattern does not reveal.
    pub fn wrong(&self) -> (r: usize)
        ensures
            r == wrong_letters(self.word@, self.guessed@).len(),
    {
        let mut r: usize = 0;
        let mut i: usize = 0;
        while i < self.guessed.len()
            invariant
                i <= self.guessed@.len(),
                r == wrong_letters(self.word@, self.guessed@.take(i as int)).len(),
                r <= i,
            decreases self.guessed@.len() - i,
        {
            let c = self.guessed[i];
            if !reveals(&self.word, c) {
                r = r + 1;
            }
            proof {
                let gs = self.guessed@;
                assert(gs.take(i + 1) =~= gs.take(i as int).push(c));
                gs.take(i as int).lemma_filter_push(c, |x: char| !revealed(self.word@, x));
            }
            i = i + 1;
        }
        proof {
            assert(self.guessed@.take(i as int) =~= self.guessed@);
        }
        r
    }
}

} // verus!
