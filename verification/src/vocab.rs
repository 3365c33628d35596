use vstd::prelude::*;

verus! {

/// No token string occurs twice.
pub open spec fn distinct_tokens(v: Seq<Seq<char>>) -> bool {
    forall|i: int, j: int| 0 <= i < j < v.len() ==> v[i] != v[j]
}

/// The position of the first occurrence of `t` in `v`; `v.len()` when absent.
pub open spec fn first_index(v: Seq<Seq<char>>, t: Seq<char>) -> int
    decreases v.len(),
{
    if v.len() == 0 {
        0
    } else if v[0] == t {
        0
    } else {
        1 + first_index(v.drop_first(), t)
    }
}

pub proof fn lemma_first_index(v: Seq<Seq<char>>, t: Seq<char>)
    ensures
        0 <= first_index(v, t) <= v.len(),
        first_index(v, t) < v.len() ==> v[first_index(v, t)] == t,
        first_index(v, t) == v.len() ==> !v.contains(t),
        v.contains(t) ==> first_index(v, t) < v.len(),
        forall|m: int| 0 <= m < first_index(v, t) ==> v[m] != t,
    decreases v.len(),
{
    if v.len() != 0 && v[0] != t {
        lemma_first_index(v.drop_first(), t);
        assert(forall|m: int| 0 <= m < v.drop_first().len() ==> v.drop_first()[m] == v[m + 1]);
        assert forall|m: int| 0 <= m < first_index(v, t) implies v[m] != t by {
            if m > 0 {
                assert(v.drop_first()[m - 1] == v[m]);
                assert(m - 1 < first_index(v.drop_first(), t));
            }
        }
        if !v.drop_first().contains(t) && v.contains(t) {
            let w = choose|w: int| 0 <= w < v.len() && v[w] == t;
            assert(v.drop_first()[w - 1] == t);
        }
    }
}

/// In a vocabulary of distinct tokens, any index holding `t` is the first one.
pub proof fn lemma_index_unique(v: Seq<Seq<char>>, t: Seq<char>, id: int)
    requires
        distinct_tokens(v),
        0 <= id < v.len(),
        v[id] == t,
    ensures
        id == first_index(v, t),
{
    lemma_first_index(v, t);
    assert(v.contains(t));
}

/// The vocabulary after interning `t`, and the id interning returns: the
/// existing id when `t` is already present, otherwise the next sequential id
/// with `t` appended.
pub open spec fn spec_intern(v: Seq<Seq<char>>, t: Seq<char>) -> (Seq<Seq<char>>, usize) {
    if v.contains(t) {
        (v, first_index(v, t) as usize)
    } else {
        (v.push(t), v.len() as usize)
    }
}

/// Interns token strings into dense, zero-based ids, bidirectionally: the
/// mapping between ids and token strings is a bijection that only grows.
pub struct Vocabulary {
    tokens: Vec<String>,
}

impl View for Vocabulary {
    type V = Seq<Seq<char>>;

    closed spec fn view(&self) -> Seq<Seq<char>> {
        self.tokens.deep_view()
    }
}

impl Vocabulary {
    pub open spec fn wf(&self) -> bool {
        distinct_tokens(self@)
    }

    /// An empty vocabulary: no token has an id yet.
    pub fn new() -> (v: Vocabulary)
        ensures
            v.wf(),
            v@ == Seq::<Seq<char>>::empty(),
    {
        let v = Vocabulary { tokens: Vec::new() };
        proof {
            assert(v@ =~= Seq::<Seq<char>>::empty());
        }
        v
    }

    /// How many distinct tokens have been interned so far.
    pub fn len(&self) -> (n: usize)
        ensures
            n == self@.len(),
    {
        self.tokens.len()
    }

    /// Read-only lookup of a token's id; `None` when it was never interned.
    pub fn lookup(&self, token: &str) -> (r: Option<usize>)
        ensures
            match r {
                Some(id) => id < self@.len() && self@[id as int] == token@,
                None => !self@.contains(token@),
            },
    {
        let t = token.to_owned();
        let n = self.tokens.len();
        let mut i: usize = 0;
        while i < n
            invariant
                i <= n,
                n == self@.len(),
                t@ == token@,
                forall|m: int| 0 <= m < i ==> self@[m] != token@,
            decreases n - i,
        {
            if self.tokens[i] == t {
                assert(self@[i as int] == token@);
                return Some(i);
            }
            i = i + 1;
        }
        proof {
            if self@.contains(token@) {
                let w = choose|w: int| 0 <= w < self@.len() && self@[w] == token@;
                assert(self@[w] != token@);
            }
        }
        None
    }

    /// Returns the existing id when the token was seen before; otherwise
    /// assigns the next sequential id and records the token under it.
    pub fn intern(&mut self, token: &str) -> (id: usize)
        requires
            old(self).wf(),
        ensures
            final(self).wf(),
            (final(self)@, id) == spec_intern(old(self)@, token@),
            id < final(self)@.len(),
            final(self)@[id as int] == token@,
            old(self)@.is_prefix_of(final(self)@),
    {
        proof {
            lemma_first_index(self@, token@);
        }
        match self.lookup(token) {
            Some(id) => {
                proof {
                    lemma_index_unique(self@, token@, id as int);
                    assert(self@.is_prefix_of(self@)) by {
                        assert(self@ =~= self@.take(self@.len() as int));
                    }
                }
                id
            },
            None => {
                let id = self.tokens.len();
                self.tokens.push(token.to_owned());
                proof {
                    assert(self@ =~= old(self)@.push(token@));
                    assert(old(self)@.is_prefix_of(self@)) by {
                        assert(old(self)@ =~= self@.take(old(self)@.len() as int));
                    }
                    assert forall|i: int, j: int| 0 <= i < j < self@.len() implies self@[i]
                        != self@[j] by {
                        if j == self@.len() - 1 {
                            assert(!old(self)@.contains(token@));
                            assert(old(self)@[i] != token@);
                        }
                    }
                }
                id
            },
        }
    }

    /// Resolves an id back to its token string; total on every id the
    /// vocabulary has assigned.
    pub fn resolve(&self, id: usize) -> (t: &String)
        requires
            id < self@.len(),
        ensures
            t@ == self@[id as int],
    {
        &self.tokens[id]
    }
}

/// Ids name tokens bijectively and stably: in any vocabulary `w` of distinct
/// tokens that grew out of `v`, an id assigned in `v` still resolves to the
/// same token, and no other id resolves to it.
pub proof fn lemma_vocab_bijection(v: Seq<Seq<char>>, w: Seq<Seq<char>>, id: int, t: Seq<char>)
    requires
        distinct_tokens(w),
        v.is_prefix_of(w),
        0 <= id < v.len(),
        v[id] == t,
    ensures
        w[id] == t,
        forall|j: int| 0 <= j < w.len() && w[j] == t ==> j == id,
{
    assert(v =~= w.take(v.len() as int));
    assert(w[id] == t);
}

} // verus!
