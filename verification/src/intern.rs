use vstd::prelude::*;

verus! {

/// A name as the library sees it: its sequence of characters.
pub type Name = Seq<char>;

/// True if no name occurs twice.
pub open spec fn distinct_names(names: Seq<Name>) -> bool {
    forall|i: int, j: int| 0 <= i < j < names.len() ==> names[i] != names[j]
}

/// The names after interning `s`: unchanged if `s` is known, else `s` appended.
pub open spec fn interned(names: Seq<Name>, s: Name) -> Seq<Name> {
    if names.contains(s) {
        names
    } else {
        names.push(s)
    }
}

/// The names after interning each of `toks` in turn.
pub open spec fn interned_all(names: Seq<Name>, toks: Seq<Name>) -> Seq<Name>
    decreases toks.len(),
{
    if toks.len() == 0 {
        names
    } else {
        interned(interned_all(names, toks.drop_last()), toks.last())
    }
}

/// The names after interning the sequences of `corpus` one after another.
pub open spec fn interned_corpus(names: Seq<Name>, corpus: Seq<Seq<Name>>) -> Seq<Name>
    decreases corpus.len(),
{
    if corpus.len() == 0 {
        names
    } else {
        interned_all(interned_corpus(names, corpus.drop_last()), corpus.last())
    }
}

/// A list of tokens as names.
pub open spec fn token_names(toks: Seq<&str>) -> Seq<Name> {
    toks.map_values(|t: &str| t@)
}

/// A corpus of token lists as names.
pub open spec fn corpus_names(corpus: Seq<Vec<&str>>) -> Seq<Seq<Name>> {
    corpus.map_values(|v: Vec<&str>| token_names(v@))
}

/// Interning only ever appends: the names before are a prefix of the names
/// after.
pub proof fn lemma_interned_all_prefix(names: Seq<Name>, toks: Seq<Name>)
    ensures
        names.is_prefix_of(interned_all(names, toks)),
        forall|i: int| 0 <= i < toks.len() ==> interned_all(names, toks).contains(#[trigger] toks[i]),
    decreases toks.len(),
{
    if toks.len() > 0 {
        let prior = interned_all(names, toks.drop_last());
        lemma_interned_all_prefix(names, toks.drop_last());
        let r = interned_all(names, toks);
        assert(prior.is_prefix_of(r));
        assert forall|i: int| 0 <= i < toks.len() implies r.contains(#[trigger] toks[i]) by {
            if i < toks.len() - 1 {
                assert(toks.drop_last()[i] == toks[i]);
                let k = choose|k: int| 0 <= k < prior.len() && prior[k] == toks[i];
                assert(r[k] == toks[i]);
            } else {
                if !prior.contains(toks.last()) {
                    assert(r[prior.len() as int] == toks.last());
                }
            }
        }
    }
}

/// The state after a prefix of a corpus is a prefix of the final state.
pub proof fn lemma_interned_corpus_prefix(names: Seq<Name>, corpus: Seq<Seq<Name>>, i: int)
    requires
        0 <= i <= corpus.len(),
    ensures
        interned_corpus(names, corpus.take(i)).is_prefix_of(interned_corpus(names, corpus)),
    decreases corpus.len() - i,
{
    if i < corpus.len() {
        lemma_interned_corpus_prefix(names, corpus, i + 1);
        let t = corpus.take(i + 1);
        assert(t.drop_last() =~= corpus.take(i));
        lemma_interned_all_prefix(interned_corpus(names, corpus.take(i)), t.last());
    } else {
        assert(corpus.take(i) =~= corpus);
    }
}

/// The state after a prefix of a token list is a prefix of the final state.
proof fn lemma_interned_all_take(names: Seq<Name>, toks: Seq<Name>, i: int)
    requires
        0 <= i <= toks.len(),
    ensures
        interned_all(names, toks.take(i)).is_prefix_of(interned_all(names, toks)),
    decreases toks.len() - i,
{
    if i < toks.len() {
        lemma_interned_all_take(names, toks, i + 1);
        let t = toks.take(i + 1);
        assert(t.drop_last() =~= toks.take(i));
        lemma_interned_all_prefix(interned_all(names, toks.take(i)), seq![t.last()]);
        assert(seq![t.last()].drop_last() =~= Seq::<Name>::empty());
    } else {
        assert(toks.take(i) =~= toks);
    }
}

/// Interning a string a second time changes nothing, and a string has one
/// id: no two positions of a duplicate-free name list hold it.
pub proof fn law_intern_idempotent(names: Seq<Name>, s: Name, i: int, j: int)
    requires
        distinct_names(names),
    ensures
        interned(interned(names, s), s) == interned(names, s),
        0 <= i < interned(names, s).len() && 0 <= j < interned(names, s).len() && interned(names, s)[i] == s
            && interned(names, s)[j] == s ==> i == j,
{
    let r = interned(names, s);
    assert(r.contains(s)) by {
        if !names.contains(s) {
            assert(r[names.len() as int] == s);
        }
    }
    law_intern_keeps_ids(names, s);
}

/// Interning never changes the id of a known string and never gives two
/// strings one id: the names before are a prefix of the names after, and
/// the names stay free of duplicates.
pub proof fn law_intern_keeps_ids(names: Seq<Name>, s: Name)
    requires
        distinct_names(names),
    ensures
        names.is_prefix_of(interned(names, s)),
        distinct_names(interned(names, s)),
{
    let r = interned(names, s);
    if !names.contains(s) {
        assert forall|i: int, j: int| 0 <= i < j < r.len() implies r[i] != r[j] by {
            if j == names.len() as int {
                assert(r[i] == names[i]);
            }
        }
    }
}

/// Maps strings to dense `u32` ids, in order of first appearance.
///
/// Ids are never reassigned: the id of a string is its position in the
/// sequence of distinct strings seen so far.
pub struct Interner {
    names: Vec<String>,
}

impl View for Interner {
    type V = Seq<Name>;

    closed spec fn view(&self) -> Seq<Name> {
        self.names@.map_values(|s: String| s@)
    }
}

impl Interner {
    #[verifier::type_invariant]
    spec fn inv(self) -> bool {
        &&& distinct_names(self@)
        &&& self.names@.len() <= u32::MAX
    }

    /// An interner that knows no string.
    pub fn new() -> (r: Self)
        ensures
            r@ == Seq::<Name>::empty(),
    {
        let r = Interner { names: Vec::new() };
        assert(r@ =~= Seq::<Name>::empty());
        r
    }

    fn find(&self, s: &String) -> (r: Option<u32>)
        ensures
            match r {
                Some(id) => id < self@.len() && self@[id as int] == s@,
                None => !self@.contains(s@),
            },
    {
        proof {
            use_type_invariant(self);
        }
        let n = self.names.len();
        let mut i: usize = 0;
        while i < n
            invariant
                n == self.names@.len(),
                n <= u32::MAX,
                i <= n,
                forall|k: int| 0 <= k < i ==> self@[k] != s@,
            decreases n - i,
        {
            if self.names[i] == *s {
                return Some(i as u32);
            }
            i = i + 1;
        }
        proof {
            if self@.contains(s@) {
                let k = choose|k: int| 0 <= k < self@.len() && self@[k] == s@;
                assert(self@[k] != s@);
            }
        }
        None
    }

    /// The id of `s`, adding `s` first if it is new.
    ///
    /// A known string keeps the id it was given; a new string gets the next
    /// id, which is the number of strings known before.
    pub fn intern(&mut self, s: &str) -> (id: u32)
        requires
            old(self)@.contains(s@) || old(self)@.len() < u32::MAX,
        ensures
            final(self)@ == interned(old(self)@, s@),
            id < final(self)@.len(),
            final(self)@[id as int] == s@,
            !old(self)@.contains(s@) ==> id == old(self)@.len(),
    {
        proof {
            use_type_invariant(&*self);
        }
        let owned = s.to_owned();
        match self.find(&owned) {
            Some(id) => id,
            None => {
                let id = self.names.len() as u32;
                let ghost before = self@;
                let mut names: Vec<String> = Vec::new();
                std::mem::swap(&mut names, &mut self.names);
                names.push(owned);
                let ghost after = names@.map_values(|t: String| t@);
                assert(after =~= before.push(s@));
                assert(distinct_names(after)) by {
                    assert forall|i: int, j: int| 0 <= i < j < after.len() implies after[i]
                        != after[j] by {
                        if j == before.len() as int {
                            assert(before[i] == after[i]);
                            assert(before.contains(before[i]));
                        }
                    }
                }
                self.names = names;
                id
            },
        }
    }

    /// Interns each token of `seq` in turn and returns their ids.
    pub fn intern_sequence(&mut self, seq: &[&str]) -> (ids: Vec<u32>)
        requires
            interned_all(old(self)@, token_names(seq@)).len() <= u32::MAX,
        ensures
            final(self)@ == interned_all(old(self)@, token_names(seq@)),
            ids@.len() == seq@.len(),
            forall|i: int|
                0 <= i < ids@.len() ==> (#[trigger] ids@[i]) < final(self)@.len() && final(self)@[ids@[i] as int]
                    == seq@[i]@,
    {
        let ghost start = self@;
        let ghost toks = token_names(seq@);
        let mut ids: Vec<u32> = Vec::new();
        let n = seq.len();
        let mut i: usize = 0;
        proof {
            assert(toks.take(0) =~= Seq::<Name>::empty());
        }
        while i < n
            invariant
                n == seq@.len(),
                toks == token_names(seq@),
                i <= n,
                interned_all(start, toks).len() <= u32::MAX,
                self@ == interned_all(start, toks.take(i as int)),
                ids@.len() == i,
                forall|k: int|
                    0 <= k < i ==> (#[trigger] ids@[k]) < self@.len() && self@[ids@[k] as int] == seq@[k]@,
            decreases n - i,
        {
            let ghost before = self@;
            proof {
                let t = toks.take(i as int + 1);
                assert(t.drop_last() =~= toks.take(i as int));
                lemma_interned_all_take(start, toks, i as int + 1);
                assert(toks[i as int] == seq@[i as int]@);
            }
            let id = self.intern(seq[i]);
            proof {
                assert(self@ == interned_all(start, toks.take(i as int + 1)));
                assert(before.is_prefix_of(self@));
            }
            ids.push(id);
            proof {
                assert forall|k: int| 0 <= k < i + 1 implies (#[trigger] ids@[k]) < self@.len()
                    && self@[ids@[k] as int] == seq@[k]@ by {
                    if k < i {
                        assert(before[ids@[k] as int] == self@[ids@[k] as int]);
                    }
                }
            }
            i = i + 1;
        }
        assert(toks.take(n as int) =~= toks);
        ids
    }

    /// Interns every token of a corpus, sequence by sequence, and returns
    /// the id sequences.
    pub fn intern_corpus(&mut self, corpus: &[Vec<&str>]) -> (ids: Vec<Vec<u32>>)
        requires
            interned_corpus(old(self)@, corpus_names(corpus@)).len() <= u32::MAX,
        ensures
            final(self)@ == interned_corpus(old(self)@, corpus_names(corpus@)),
            ids@.len() == corpus@.len(),
            forall|i: int| 0 <= i < ids@.len() ==> (#[trigger] ids@[i])@.len() == corpus@[i]@.len(),
            forall|i: int, j: int|
                0 <= i < ids@.len() && 0 <= j < ids@[i]@.len() ==> (#[trigger] ids@[i]@[j])
                    < final(self)@.len() && final(self)@[ids@[i]@[j] as int] == corpus@[i]@[j]@,
    {
        let ghost start = self@;
        let ghost c = corpus_names(corpus@);
        let mut ids: Vec<Vec<u32>> = Vec::new();
        let n = corpus.len();
        let mut i: usize = 0;
        proof {
            assert(c.take(0) =~= Seq::<Seq<Name>>::empty());
        }
        while i < n
            invariant
                n == corpus@.len(),
                c == corpus_names(corpus@),
                i <= n,
                interned_corpus(start, c).len() <= u32::MAX,
                self@ == interned_corpus(start, c.take(i as int)),
                ids@.len() == i,
                forall|k: int| 0 <= k < i ==> (#[trigger] ids@[k])@.len() == corpus@[k]@.len(),
                forall|k: int, j: int|
                    0 <= k < i && 0 <= j < ids@[k]@.len() ==> (#[trigger] ids@[k]@[j]) < self@.len()
                        && self@[ids@[k]@[j] as int] == corpus@[k]@[j]@,
            decreases n - i,
        {
            let ghost before = self@;
            proof {
                let t = c.take(i as int + 1);
                assert(t.drop_last() =~= c.take(i as int));
                assert(c[i as int] == token_names(corpus@[i as int]@));
                lemma_interned_corpus_prefix(start, c, i as int + 1);
            }
            let row = self.intern_sequence(corpus[i].as_slice());
            proof {
                assert(self@ == interned_corpus(start, c.take(i as int + 1)));
                lemma_interned_all_prefix(before, token_names(corpus@[i as int]@));
            }
            ids.push(row);
            proof {
                assert forall|k: int, j: int|
                    0 <= k < i + 1 && 0 <= j < ids@[k]@.len() implies (#[trigger] ids@[k]@[j])
                        < self@.len() && self@[ids@[k]@[j] as int] == corpus@[k]@[j]@ by {
                    if k < i {
                        assert(before[ids@[k]@[j] as int] == self@[ids@[k]@[j] as int]);
                    }
                }
            }
            i = i + 1;
        }
        assert(c.take(n as int) =~= c);
        ids
    }

    /// The id of each token, or the number of known strings for a token that
    /// was never interned.
    pub fn lookup_ids(&self, seq: &[&str]) -> (ids: Vec<u32>)
        ensures
            ids@.len() == seq@.len(),
            forall|i: int|
                0 <= i < ids@.len() ==> if self@.contains(seq@[i]@) {
                    (#[trigger] ids@[i]) < self@.len() && self@[ids@[i] as int] == seq@[i]@
                } else {
                    ids@[i] == self@.len()
                },
    {
        let unknown = self.len() as u32;
        let mut ids: Vec<u32> = Vec::new();
        let n = seq.len();
        let mut i: usize = 0;
        while i < n
            invariant
                n == seq@.len(),
                i <= n,
                unknown == self@.len(),
                ids@.len() == i,
                forall|k: int|
                    0 <= k < i ==> if self@.contains(seq@[k]@) {
                        (#[trigger] ids@[k]) < self@.len() && self@[ids@[k] as int] == seq@[k]@
                    } else {
                        ids@[k] == self@.len()
                    },
            decreases n - i,
        {
            let id = match self.get(seq[i]) {
                Some(id) => id,
                None => unknown,
            };
            ids.push(id);
            i = i + 1;
        }
        ids
    }

    /// The id of `s` if it has been interned.
    pub fn get(&self, s: &str) -> (r: Option<u32>)
        ensures
            match r {
                Some(id) => id < self@.len() && self@[id as int] == s@,
                None => !self@.contains(s@),
            },
    {
        let owned = s.to_owned();
        self.find(&owned)
    }

    /// The string with id `id`.
    pub fn name(&self, id: u32) -> (r: &str)
        requires
            id < self@.len(),
        ensures
            r@ == self@[id as int],
    {
        self.names[id as usize].as_str()
    }

    /// The number of distinct strings interned.
    pub fn len(&self) -> (r: usize)
        ensures
            r == self@.len(),
            r <= u32::MAX,
            distinct_names(self@),
    {
        proof {
            use_type_invariant(self);
        }
        self.names.len()
    }

    /// True if no string has been interned.
    pub fn is_empty(&self) -> (r: bool)
        ensures
            r == (self@.len() == 0),
    {
        self.names.len() == 0
    }
}

impl Default for Interner {
    fn default() -> (r: Self)
        ensures
            r@ == Seq::<Name>::empty(),
    {
        Interner::new()
    }
}

} // verus!
