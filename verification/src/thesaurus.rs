//! Words and their synonyms.

use crate::text::{owned_texts, slices, texts};
use vstd::prelude::*;

verus! {

/// A list of words, each with its synonyms. A word has one list of
/// synonyms: giving it another replaces the first.
pub struct Thesaurus {
    words: Vec<String>,
    lists: Vec<Vec<String>>,
}

impl View for Thesaurus {
    type V = Map<Seq<char>, Seq<Seq<char>>>;

    closed spec fn view(&self) -> Map<Seq<char>, Seq<Seq<char>>> {
        Map::new(
            |w: Seq<char>| exists|i: int| 0 <= i < self.words@.len() && #[trigger] self.words@[i]@ == w,
            |w: Seq<char>|
                texts(
                    self.lists@[choose|i: int|
                        0 <= i < self.words@.len() && #[trigger] self.words@[i]@ == w]@,
                ),
        )
    }
}

impl Thesaurus {
    /// No word stands twice in the list, and each has its synonyms.
    pub closed spec fn wf(&self) -> bool {
        &&& self.words@.len() == self.lists@.len()
        &&& forall|i: int, j: int|
            0 <= i < j < self.words@.len() ==> (#[trigger] self.words@[i])@ != (
            #[trigger] self.words@[j])@
    }

    /// The word at position `i` has the synonyms at position `i`.
    proof fn lemma_entry(&self, i: int)
        requires
            self.wf(),
            0 <= i < self.words@.len(),
        ensures
            self@.contains_key(self.words@[i]@),
            self@[self.words@[i]@] == texts(self.lists@[i]@),
    {
        let w = self.words@[i]@;
        let k = choose|k: int| 0 <= k < self.words@.len() && #[trigger] self.words@[k]@ == w;
        if k < i {
            assert(self.words@[k]@ != self.words@[i]@);
        } else if i < k {
            assert(self.words@[i]@ != self.words@[k]@);
        }
    }

    /// A thesaurus without words.
    pub fn new() -> (r: Self)
        ensures
            r.wf(),
            r@ == Map::<Seq<char>, Seq<Seq<char>>>::empty(),
    {
        let r = Thesaurus { words: Vec::new(), lists: Vec::new() };
        assert(r@ =~= Map::<Seq<char>, Seq<Seq<char>>>::empty());
        r
    }

    /// The position of `word` among the words, if it is there.
    fn position(&self, word: &String) -> (r: Option<usize>)
        ensures
            match r {
                Some(i) => i < self.words@.len() && self.words@[i as int]@ == word@,
                None => forall|i: int| 0 <= i < self.words@.len() ==> (#[trigger] self.words@[i])@ != word@,
            },
    {
        let mut i: usize = 0;
        while i < self.words.len()
            invariant
                i <= self.words@.len(),
                forall|j: int| 0 <= j < i ==> (#[trigger] self.words@[j])@ != word@,
            decreases self.words@.len() - i,
        {
            if self.words[i] == *word {
                return Some(i);
            }
            i += 1;
        }
        None
    }

    /// Gives `word` the synonyms `synonyms`, in place of those it had.
    pub fn add_synonyms(&mut self, word: &str, synonyms: Vec<&str>)
        requires
            old(self).wf(),
        ensures
            final(self).wf(),
            final(self)@ == old(self)@.insert(word@, slices(synonyms@)),
    {
        let key = word.to_owned();
        let list = owned_texts(&synonyms);
        let ghost before = *self;
        match self.position(&key) {
            Some(i) => {
                self.lists[i] = list;
                proof {
                    assert(self.words@ == before.words@);
                    assert forall|w: Seq<char>| #[trigger] self@.contains_key(w) implies self@[w]
                        == before@.insert(word@, slices(synonyms@))[w] by {
                        let k = choose|k: int|
                            0 <= k < self.words@.len() && #[trigger] self.words@[k]@ == w;
                        if w == word@ {
                            assert(k == i) by {
                                if k < i {
                                    assert(self.words@[k]@ != self.words@[i as int]@);
                                } else if i < k {
                                    assert(self.words@[i as int]@ != self.words@[k]@);
                                }
                            }
                        } else {
                            assert(self.lists@[k] == before.lists@[k]);
                        }
                    }
                    assert(self@.dom() =~= before@.insert(word@, slices(synonyms@)).dom()) by {
                        assert(before@.contains_key(word@));
                    }
                    assert(self@ =~= before@.insert(word@, slices(synonyms@)));
                }
            },
            None => {
                self.words.push(key);
                self.lists.push(list);
                proof {
                    let n = before.words@.len() as int;
                    assert(self.words@[n]@ == word@);
                    assert forall|w: Seq<char>| #[trigger] self@.contains_key(w) <==> before@.insert(
                        word@,
                        slices(synonyms@),
                    ).contains_key(w) by {
                        if self@.contains_key(w) {
                            let k = choose|k: int|
                                0 <= k < self.words@.len() && #[trigger] self.words@[k]@ == w;
                            if k < n {
                                assert(before.words@[k]@ == w);
                            }
                        }
                        if before@.contains_key(w) {
                            let k = choose|k: int|
                                0 <= k < before.words@.len() && #[trigger] before.words@[k]@ == w;
                            assert(self.words@[k]@ == w);
                        }
                    }
                    assert forall|w: Seq<char>| #[trigger] self@.contains_key(w) implies self@[w]
                        == before@.insert(word@, slices(synonyms@))[w] by {
                        let k = choose|k: int|
                            0 <= k < self.words@.len() && #[trigger] self.words@[k]@ == w;
                        if w == word@ {
                            if k < n {
                                assert(before.words@[k]@ != word@);
                            }
                        } else {
                            assert(k < n);
                            assert(before.words@[k]@ == w);
                            let b = choose|b: int|
                                0 <= b < before.words@.len() && #[trigger] before.words@[b]@ == w;
                            assert(b == k) by {
                                if b < k {
                                    assert(before.words@[b]@ != before.words@[k]@);
                                } else if k < b {
                                    assert(before.words@[k]@ != before.words@[b]@);
                                }
                            }
                            assert(self.lists@[k] == before.lists@[k]);
                        }
                    }
                    assert(self@ =~= before@.insert(word@, slices(synonyms@)));
                }
            },
        }
    }

    /// Whether `synonym` is among the synonyms that `word` was given.
    pub fn is_synonym(&self, word: &str, synonym: &str) -> (r: bool)
        requires
            self.wf(),
        ensures
            r == (self@.contains_key(word@) && self@[word@].contains(synonym@)),
    {
        let key = word.to_owned();
        match self.position(&key) {
            Some(i) => {
                let wanted = synonym.to_owned();
                let list = &self.lists[i];
                proof {
                    self.lemma_entry(i as int);
                }
                let mut j: usize = 0;
                while j < list.len()
                    invariant
                        j <= list@.len(),
                        wanted@ == synonym@,
                        self@.contains_key(word@),
                        self@[word@] == texts(list@),
                        forall|k: int| 0 <= k < j ==> (#[trigger] list@[k])@ != wanted@,
                    decreases list@.len() - j,
                {
                    if list[j] == wanted {
                        assert(texts(list@)[j as int] == synonym@);
                        return true;
                    }
                    j += 1;
                }
                assert(!texts(list@).contains(synonym@)) by {
                    if texts(list@).contains(synonym@) {
                        let k = choose|k: int| 0 <= k < texts(list@).len() && texts(list@)[k] == synonym@;
                        assert(list@[k]@ != wanted@);
                    }
                }
                false
            },
            None => false,
        }
    }

    /// The synonyms that `word` was given.
    pub fn get_synonyms(&self, word: &str) -> (r: &Vec<String>)
        requires
            self.wf(),
            self@.contains_key(word@),
        ensures
            texts(r@) == self@[word@],
    {
        let key = word.to_owned();
        match self.position(&key) {
            Some(i) => {
                proof {
                    self.lemma_entry(i as int);
                }
                &self.lists[i]
            },
            None => {
                proof {
                    let k = choose|k: int|
                        0 <= k < self.words@.len() && #[trigger] self.words@[k]@ == word@;
                    assert(self.words@[k]@ != word@);
                }
                &self.lists[0]
            },
        }
    }
}

/// The synonyms of "create" that every thesaurus starts with.
pub open spec fn create_synonyms() -> Seq<Seq<char>> {
    seq![
        "construct"@,
        "build"@,
        "devise"@,
        "design"@,
        "establish"@,
        "forge"@,
        "form"@,
        "generate"@,
        "initiate"@,
        "invent"@,
        "make"@,
        "produce"@,
        "set up"@,
        "spawn"@,
    ]
}

/// Gives "called" and "create" their usual synonyms.
pub fn add_default_synonyms(thesaurus: &mut Thesaurus)
    requires
        old(thesaurus).wf(),
    ensures
        final(thesaurus).wf(),
        final(thesaurus)@ == old(thesaurus)@.insert("called"@, seq!["named"@]).insert(
            "create"@,
            create_synonyms(),
        ),
{
    let called: Vec<&str> = vec!["named"];
    assert(slices(called@) =~= seq!["named"@]);
    thesaurus.add_synonyms("called", called);
    let create: Vec<&str> = vec![
        "construct",
        "build",
        "devise",
        "design",
        "establish",
        "forge",
        "form",
        "generate",
        "initiate",
        "invent",
        "make",
        "produce",
        "set up",
        "spawn",
    ];
    assert(slices(create@) =~= create_synonyms());
    thesaurus.add_synonyms("create", create);
}

} // verus!
