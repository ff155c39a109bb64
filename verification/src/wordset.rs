//! A set of words, held as a list in which no word stands twice.
use vstd::prelude::*;

verus! {

/// The texts of a list of strings.
pub open spec fn texts(list: Seq<String>) -> Seq<Seq<char>> {
    list.map_values(|s: String| s@)
}

/// Whether the word stands in the list, letter for letter.
pub fn list_holds(list: &Vec<String>, word: &str) -> (b: bool)
    ensures
        b == texts(list@).contains(word@),
{
    let w = word.to_owned();
    let mut i: usize = 0;
    while i < list.len()
        invariant
            i <= list.len(),
            w@ == word@,
            forall|j: int| 0 <= j < i ==> texts(list@)[j] != word@,
        decreases list.len() - i,
    {
        if list[i] == w {
            assert(texts(list@)[i as int] == word@);
            return true;
        }
        i += 1;
    }
    false
}

/// A finite set of words. Both the ignore set of a repository and the words
/// that the dictionary has accepted are such sets.
#[derive(Debug)]
pub struct WordSet {
    words: Vec<String>,
}

impl View for WordSet {
    type V = Set<Seq<char>>;

    closed spec fn view(&self) -> Set<Seq<char>> {
        self.entries().to_set()
    }
}

impl WordSet {
    /// The words in the order in which they were put in.
    pub closed spec fn entries(&self) -> Seq<Seq<char>> {
        texts(self.words@)
    }

    #[verifier::type_invariant]
    spec fn no_word_twice(&self) -> bool {
        self.entries().no_duplicates()
    }

    /// The set holds just the words of the list, and as many as the list is
    /// long where no word stands twice in it.
    pub proof fn lemma_entries(&self)
        ensures
            self@.finite(),
            forall|w: Seq<char>| self@.contains(w) <==> self.entries().contains(w),
            self.entries().no_duplicates() ==> self@.len() == self.entries().len(),
    {
        broadcast use vstd::seq_lib::group_seq_properties;
        if self.entries().no_duplicates() {
            self.entries().unique_seq_to_set();
        }
    }

    /// The empty set.
    pub fn new() -> (s: WordSet)
        ensures
            s@ == Set::<Seq<char>>::empty(),
    {
        let s = WordSet { words: Vec::new() };
        assert(s.entries() =~= Seq::empty());
        assert(s@ =~= Set::<Seq<char>>::empty());
        s
    }

    /// Whether the word is in the set, letter for letter.
    pub fn contains(&self, word: &str) -> (b: bool)
        ensures
            b == self@.contains(word@),
    {
        list_holds(&self.words, word)
    }

    /// Puts a word in. Returns whether the set grew.
    pub fn insert(&mut self, word: &str) -> (fresh: bool)
        ensures
            final(self)@ == old(self)@.insert(word@),
            fresh == !old(self)@.contains(word@),
    {
        if self.contains(word) {
            assert(self@.insert(word@) =~= self@);
            false
        } else {
            proof {
                use_type_invariant(&*self);
            }
            let ghost before = self.entries();
            let mut words: Vec<String> = Vec::new();
            core::mem::swap(&mut self.words, &mut words);
            words.push(word.to_owned());
            proof {
                let after = texts(words@);
                assert(after =~= before.push(word@));
                assert(!before.contains(word@));
                before.lemma_push_to_set_commute(word@);
            }
            self.words = words;
            true
        }
    }

    /// The set of the words of a list.
    pub fn from_list(list: &Vec<String>) -> (s: WordSet)
        ensures
            s@ == texts(list@).to_set(),
    {
        let mut s = WordSet::new();
        let mut i: usize = 0;
        assert(texts(list@).take(0).to_set() =~= Set::<Seq<char>>::empty());
        while i < list.len()
            invariant
                i <= list.len(),
                s@ == texts(list@).take(i as int).to_set(),
            decreases list.len() - i,
        {
            s.insert(list[i].as_str());
            proof {
                let done = texts(list@).take(i as int);
                done.lemma_push_to_set_commute(list[i as int]@);
                assert(done.push(list[i as int]@) =~= texts(list@).take(i + 1));
            }
            i += 1;
        }
        assert(texts(list@).take(i as int) =~= texts(list@));
        s
    }

    /// How many words the set holds.
    pub fn len(&self) -> (n: usize)
        ensures
            self@.finite(),
            n == self@.len(),
    {
        proof {
            use_type_invariant(self);
            self.lemma_entries();
        }
        self.words.len()
    }

    /// Whether the set holds no word.
    pub fn is_empty(&self) -> (b: bool)
        ensures
            b == (self@ == Set::<Seq<char>>::empty()),
    {
        proof {
            self.lemma_entries();
            if self.words.len() == 0 {
                assert(self@ =~= Set::<Seq<char>>::empty());
            } else {
                assert(self.entries().contains(self.entries()[0]));
            }
        }
        self.words.len() == 0
    }
}

} // verus!
