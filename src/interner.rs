//! Word interning: a dense, first-seen numbering of distinct words.

use vstd::prelude::*;

use crate::index::{chars_hash, hash_chars, BucketIndex};
use crate::text::{all_tokens, chars_of, views};

verus! {

/// A two-way mapping between words and dense ids: the word with id `i` is
/// `id_to_word[i]`, and a hash index finds the id of a word.
pub struct Interner {
    id_to_word: Vec<String>,
    word_to_id: BucketIndex,
}

impl View for Interner {
    type V = Seq<Seq<char>>;

    /// The words, indexed by id.
    closed spec fn view(&self) -> Seq<Seq<char>> {
        views(self.id_to_word@)
    }
}

/// No word occurs twice.
pub open spec fn distinct_words(ws: Seq<Seq<char>>) -> bool {
    forall|i: int, j: int| 0 <= i < ws.len() && 0 <= j < ws.len() && i != j ==> ws[i] != ws[j]
}

/// Interning one word: its id, and the words after it has one.
pub open spec fn intern_one(ws: Seq<Seq<char>>, w: Seq<char>) -> (Seq<Seq<char>>, usize) {
    if ws.contains(w) {
        (ws, (choose|i: int| 0 <= i < ws.len() && ws[i] == w) as usize)
    } else {
        (ws.push(w), ws.len() as usize)
    }
}

/// Interning a sequence of words in order: the words afterwards and the ids.
pub open spec fn intern_all(ws: Seq<Seq<char>>, input: Seq<Seq<char>>) -> (Seq<Seq<char>>, Seq<usize>)
    decreases input.len(),
{
    if input.len() == 0 {
        (ws, Seq::empty())
    } else {
        let (ws1, ids) = intern_all(ws, input.drop_last());
        let (ws2, id) = intern_one(ws1, input.last());
        (ws2, ids.push(id))
    }
}

/// Interning tokens into a vocabulary of tokens leaves a vocabulary of tokens.
pub proof fn lemma_intern_all_tokens(ws: Seq<Seq<char>>, input: Seq<Seq<char>>)
    requires
        all_tokens(ws),
        all_tokens(input),
    ensures
        all_tokens(intern_all(ws, input).0),
    decreases input.len(),
{
    if input.len() > 0 {
        lemma_intern_all_tokens(ws, input.drop_last());
    }
}

impl Interner {
    pub closed spec fn wf(&self) -> bool {
        &&& self.word_to_id.wf()
        &&& self.word_to_id.hashes() == self@.map_values(|w: Seq<char>| chars_hash(w))
        &&& distinct_words(self@)
    }

    pub fn new() -> (r: Self)
        ensures
            r.wf(),
            r@ == Seq::<Seq<char>>::empty(),
    {
        let r = Interner { id_to_word: Vec::new(), word_to_id: BucketIndex::new() };
        assert(r@ =~= Seq::<Seq<char>>::empty());
        assert(r@.map_values(|w: Seq<char>| chars_hash(w)) =~= Seq::<u64>::empty());
        r
    }

    /// No word of a well-formed interner has two ids.
    pub proof fn lemma_wf(&self)
        requires
            self.wf(),
        ensures
            distinct_words(self@),
    {
    }

    /// The number of interned words.
    pub fn len(&self) -> (r: usize)
        ensures
            r == self@.len(),
    {
        self.id_to_word.len()
    }

    /// The words, indexed by id.
    pub fn words(&self) -> (r: &Vec<String>)
        ensures
            views(r@) == self@,
    {
        &self.id_to_word
    }

    /// The id of `word`, if it has one.
    pub fn lookup(&self, word: &str) -> (r: Option<usize>)
        requires
            self.wf(),
        ensures
            r matches Some(i) ==> i < self@.len() && self@[i as int] == word@,
            r is None ==> !self@.contains(word@),
    {
        let cs = chars_of(word);
        let h = hash_chars(&cs);
        let cands = self.word_to_id.candidates(h);
        let target = word.to_owned();
        let mut k: usize = 0;
        while k < cands.len()
            invariant
                self.wf(),
                target@ == word@,
                h == chars_hash(word@),
                forall|m: int| 0 <= m < cands@.len() ==> (#[trigger] cands@[m] as int) < self@.len(),
                forall|m: int| 0 <= m < k ==> self@[#[trigger] cands@[m] as int] != word@,
                forall|i: int|
                    0 <= i < self@.len() && #[trigger] self.word_to_id.hashes()[i] == h
                        ==> exists|m: int| 0 <= m < cands@.len() && cands@[m] as int == i,
                k <= cands@.len(),
            decreases cands@.len() - k,
        {
            let id = cands[k];
            assert(self@[id as int] == self.id_to_word@[id as int]@);
            if self.id_to_word[id] == target {
                return Some(id);
            }
            k = k + 1;
        }
        proof {
            if self@.contains(word@) {
                let i = choose|i: int| 0 <= i < self@.len() && self@[i] == word@;
                assert(self.word_to_id.hashes()[i] == chars_hash(self@[i]));
                let m = choose|m: int| 0 <= m < cands@.len() && cands@[m] as int == i;
                assert(self@[cands@[m] as int] != word@);
            }
        }
        None
    }

    /// The id of `word`, giving it the next id if it has none yet.
    pub fn get_or_intern(&mut self, word: &str) -> (r: usize)
        requires
            old(self).wf(),
        ensures
            final(self).wf(),
            r < final(self)@.len(),
            final(self)@[r as int] == word@,
            old(self)@.contains(word@) ==> final(self)@ == old(self)@,
            !old(self)@.contains(word@) ==> final(self)@ == old(self)@.push(word@),
            (final(self)@, r) == intern_one(old(self)@, word@),
    {
        match self.lookup(word) {
            Some(id) => {
                let ghost i = choose|i: int| 0 <= i < self@.len() && self@[i] == word@;
                assert(i == id as int);
                id
            },
            None => {
                let id = self.id_to_word.len();
                let ghost before = self@;
                let cs = chars_of(word);
                let h = hash_chars(&cs);
                self.word_to_id.push(h, id);
                self.id_to_word.push(word.to_owned());
                assert(self@ =~= before.push(word@));
                assert(self.word_to_id.hashes() =~= self@.map_values(|w: Seq<char>| chars_hash(w)));
                id
            },
        }
    }

    /// Interns each word in order and returns their ids.
    pub fn intern_words(&mut self, input: &Vec<String>) -> (r: Vec<usize>)
        requires
            old(self).wf(),
        ensures
            final(self).wf(),
            (final(self)@, r@) == intern_all(old(self)@, views(input@)),
            old(self)@.len() <= final(self)@.len(),
            old(self)@ == final(self)@.subrange(0, old(self)@.len() as int),
            forall|k: int| 0 <= k < r@.len() ==> r@[k] < final(self)@.len(),
            r@.len() == input@.len(),
    {
        let mut ids: Vec<usize> = Vec::new();
        let mut k: usize = 0;
        while k < input.len()
            invariant
                self.wf(),
                k <= input@.len(),
                (self@, ids@) == intern_all(old(self)@, views(input@.subrange(0, k as int))),
                old(self)@.len() <= self@.len(),
                old(self)@ == self@.subrange(0, old(self)@.len() as int),
                forall|m: int| 0 <= m < ids@.len() ==> ids@[m] < self@.len(),
                ids@.len() == k,
            decreases input@.len() - k,
        {
            let id = self.get_or_intern(input[k].as_str());
            ids.push(id);
            proof {
                let pre = views(input@.subrange(0, k as int));
                let now = views(input@.subrange(0, k + 1));
                assert(now.drop_last() == pre);
                assert(now.last() == input@[k as int]@);
                assert(old(self)@ == self@.subrange(0, old(self)@.len() as int));
            }
            k = k + 1;
        }
        assert(input@.subrange(0, input@.len() as int) == input@);
        ids
    }

    /// The word with id `id`, if there is one.
    pub fn resolve(&self, id: usize) -> (r: Option<&str>)
        ensures
            id < self@.len() ==> (r matches Some(w) && w@ == self@[id as int]),
            id >= self@.len() ==> r is None,
    {
        if id < self.id_to_word.len() {
            Some(self.id_to_word[id].as_str())
        } else {
            None
        }
    }
}

} // verus!
