use crate::freq::{sample_val, spec_record, FrequencyTable};
use crate::tokenizer::{spec_tokenize, tokenize};
use crate::vocab::{first_index, lemma_index_unique, spec_intern, Vocabulary};
use vstd::prelude::*;
use vstd::string::StringExecFns;

verus! {

/// Maximum context length (the model's highest order).
pub const MAX_ORDER: usize = 5;

/// The one failure the model reports: a prompt token that was never seen
/// during training.
#[derive(Clone, Copy, PartialEq, Eq, Structural, Debug)]
pub enum BrainError {
    UnknownToken,
}

/// The mathematical state of a model: the interned tokens in id order, and
/// the context-to-continuation counts.
pub struct BrainModel {
    pub vocab: Seq<Seq<char>>,
    pub freq: Map<Seq<usize>, Map<usize, usize>>,
}

/// Every id in the table (in a context or as a continuation) is below `n`.
pub open spec fn ids_bounded(f: Map<Seq<usize>, Map<usize, usize>>, n: int) -> bool {
    forall|c: Seq<usize>| #[trigger]
        f.contains_key(c) ==> (forall|m: int| 0 <= m < c.len() ==> c[m] < n) && (forall|id: usize|
            #[trigger] f[c].contains_key(id) ==> id < n)
}

proof fn lemma_ids_bounded_record(
    f: Map<Seq<usize>, Map<usize, usize>>,
    c: Seq<usize>,
    id: usize,
    n: int,
)
    requires
        ids_bounded(f, n),
        forall|m: int| 0 <= m < c.len() ==> c[m] < n,
        id < n,
    ensures
        ids_bounded(spec_record(f, c, id), n),
{
    let f2 = spec_record(f, c, id);
    assert forall|c2: Seq<usize>| #[trigger] f2.contains_key(c2) implies (forall|m: int|
        0 <= m < c2.len() ==> c2[m] < n) && (forall|x: usize| #[trigger]
        f2[c2].contains_key(x) ==> x < n) by {
        if c2 == c {
            assert forall|x: usize| #[trigger] f2[c2].contains_key(x) implies x < n by {
                if x != id {
                    assert(f.contains_key(c) && f[c].contains_key(x));
                }
            }
        } else {
            assert(f.contains_key(c2));
            assert(f2[c2] == f[c2]);
        }
    }
}

proof fn lemma_ids_bounded_mono(f: Map<Seq<usize>, Map<usize, usize>>, n: int, n2: int)
    requires
        ids_bounded(f, n),
        n <= n2,
    ensures
        ids_bounded(f, n2),
{
}

/// The table after recording `id` under every suffix of `buf` of length
/// 1 up to `k`, shortest first.
pub open spec fn record_suffixes(
    f: Map<Seq<usize>, Map<usize, usize>>,
    buf: Seq<usize>,
    id: usize,
    k: int,
) -> Map<Seq<usize>, Map<usize, usize>>
    decreases k,
{
    if k <= 0 {
        f
    } else {
        spec_record(record_suffixes(f, buf, id, k - 1), buf.skip(buf.len() - k), id)
    }
}

proof fn lemma_ids_bounded_suffixes(
    f: Map<Seq<usize>, Map<usize, usize>>,
    buf: Seq<usize>,
    id: usize,
    k: int,
    n: int,
)
    requires
        ids_bounded(f, n),
        forall|m: int| 0 <= m < buf.len() ==> buf[m] < n,
        id < n,
        k <= buf.len(),
    ensures
        ids_bounded(record_suffixes(f, buf, id, k), n),
    decreases k,
{
    if k > 0 {
        lemma_ids_bounded_suffixes(f, buf, id, k - 1, n);
        let c = buf.skip(buf.len() - k);
        assert(forall|m: int| 0 <= m < c.len() ==> c[m] == buf[m + buf.len() - k]);
        lemma_ids_bounded_record(record_suffixes(f, buf, id, k - 1), c, id, n);
    }
}

/// The context buffer one token later: `id` appended, the oldest id dropped
/// once the buffer is longer than the maximum order.
pub open spec fn push_trim(buf: Seq<usize>, id: usize) -> Seq<usize> {
    let b = buf.push(id);
    if b.len() > MAX_ORDER {
        b.drop_first()
    } else {
        b
    }
}

/// One training step: intern the token, record it under every suffix of the
/// current context buffer, then slide the buffer.
pub open spec fn spec_train_step(m: BrainModel, buf: Seq<usize>, tok: Seq<char>) -> (
    BrainModel,
    Seq<usize>,
) {
    let vi = spec_intern(m.vocab, tok);
    let f2 = record_suffixes(m.freq, buf, vi.1, buf.len() as int);
    (BrainModel { vocab: vi.0, freq: f2 }, push_trim(buf, vi.1))
}

pub open spec fn spec_train_from(m: BrainModel, buf: Seq<usize>, toks: Seq<Seq<char>>) -> (
    BrainModel,
    Seq<usize>,
)
    decreases toks.len(),
{
    if toks.len() == 0 {
        (m, buf)
    } else {
        let s = spec_train_step(m, buf, toks[0]);
        spec_train_from(s.0, s.1, toks.drop_first())
    }
}

/// The model after one training pass over the token sequence `toks`,
/// starting from an empty context buffer.
pub open spec fn spec_train(m: BrainModel, toks: Seq<Seq<char>>) -> BrainModel {
    spec_train_from(m, Seq::<usize>::empty(), toks).0
}

proof fn lemma_train_from_snoc(m: BrainModel, buf: Seq<usize>, toks: Seq<Seq<char>>, i: int)
    requires
        0 <= i < toks.len(),
    ensures
        spec_train_from(m, buf, toks.take(i + 1)) == {
            let p = spec_train_from(m, buf, toks.take(i));
            spec_train_step(p.0, p.1, toks[i])
        },
    decreases i,
{
    if i == 0 {
        assert(toks.take(0) =~= Seq::<Seq<char>>::empty());
        assert(toks.take(1).drop_first() =~= Seq::<Seq<char>>::empty());
        assert(toks.take(1)[0] == toks[0]);
        let s = spec_train_step(m, buf, toks[0]);
        assert(spec_train_from(m, buf, toks.take(1)) == spec_train_from(
            s.0,
            s.1,
            toks.take(1).drop_first(),
        ));
        assert(spec_train_from(s.0, s.1, toks.take(1).drop_first()) == (s.0, s.1));
        assert(spec_train_from(m, buf, toks.take(0)) == (m, buf));
    } else {
        let s = spec_train_step(m, buf, toks[0]);
        lemma_train_from_snoc(s.0, s.1, toks.drop_first(), i - 1);
        assert(toks.take(i + 1)[0] == toks[0]);
        assert(toks.take(i + 1).drop_first() =~= toks.drop_first().take(i));
        assert(toks.take(i)[0] == toks[0]);
        assert(toks.take(i).drop_first() =~= toks.drop_first().take(i - 1));
        assert(toks.drop_first()[i - 1] == toks[i]);
        assert(spec_train_from(m, buf, toks.take(i + 1)) == spec_train_from(
            s.0,
            s.1,
            toks.drop_first().take(i),
        ));
        assert(spec_train_from(m, buf, toks.take(i)) == spec_train_from(
            s.0,
            s.1,
            toks.drop_first().take(i - 1),
        ));
    }
}

/// Copies the last `cs` ids of `v`.
fn tail_context(v: &Vec<usize>, cs: usize) -> (r: Vec<usize>)
    requires
        cs <= v.len(),
    ensures
        r@ == v@.skip(v@.len() - cs as int),
{
    let len = v.len();
    let mut r: Vec<usize> = Vec::new();
    let mut j: usize = len - cs;
    proof {
        assert(r@ =~= v@.subrange(len - cs as int, len - cs as int));
    }
    while j < len
        invariant
            len - cs <= j <= len,
            len == v@.len(),
            cs <= len,
            r@ == v@.subrange(len - cs as int, j as int),
        decreases len - j,
    {
        r.push(v[j]);
        proof {
            assert(r@ =~= v@.subrange(len - cs as int, j + 1));
        }
        j = j + 1;
    }
    proof {
        assert(v@.subrange(len - cs as int, len as int) =~= v@.skip(v@.len() - cs as int));
    }
    r
}

/// The variable-order Markov model: a vocabulary of interned tokens and a
/// table of context transition counts, trained on text and queried to
/// generate continuations.
pub struct Brain {
    vocab: Vocabulary,
    freq: FrequencyTable,
}

impl View for Brain {
    type V = BrainModel;

    closed spec fn view(&self) -> BrainModel {
        BrainModel { vocab: self.vocab@, freq: self.freq@ }
    }
}

impl Brain {
    pub closed spec fn wf(&self) -> bool {
        &&& self.vocab.wf()
        &&& self.freq.wf()
        &&& ids_bounded(self.freq@, self.vocab@.len() as int)
    }

    /// A model that has seen nothing: no tokens, no contexts.
    pub fn new() -> (b: Brain)
        ensures
            b.wf(),
            b@.vocab == Seq::<Seq<char>>::empty(),
            b@.freq == Map::<Seq<usize>, Map<usize, usize>>::empty(),
    {
        Brain { vocab: Vocabulary::new(), freq: FrequencyTable::new() }
    }

    /// The vocabulary accumulated so far.
    pub fn vocabulary(&self) -> (v: &Vocabulary)
        requires
            self.wf(),
        ensures
            v@ == self@.vocab,
            v.wf(),
    {
        &self.vocab
    }

    /// The context transition counts accumulated so far.
    pub fn table(&self) -> (t: &FrequencyTable)
        requires
            self.wf(),
        ensures
            t@ == self@.freq,
            t.wf(),
    {
        &self.freq
    }

    fn record_suffixes_exec(freq: &mut FrequencyTable, context: &Vec<usize>, id: usize)
        requires
            old(freq).wf(),
        ensures
            final(freq).wf(),
            final(freq)@ == record_suffixes(old(freq)@, context@, id, context@.len() as int),
    {
        let len = context.len();
        let mut done: usize = 0;
        while done < len
            invariant
                done <= len,
                len == context@.len(),
                freq.wf(),
                freq@ == record_suffixes(old(freq)@, context@, id, done as int),
            decreases len - done,
        {
            let cs = done + 1;
            let sub = tail_context(context, cs);
            freq.record(&sub, id);
            done = cs;
        }
    }

    /// Learns from `text`: tokenizes it, interns every token, and records
    /// each token under every context suffix (length 1 up to the maximum
    /// order) that precedes it. Any text is accepted; empty text changes
    /// nothing.
    pub fn train(&mut self, text: &str)
        requires
            old(self).wf(),
        ensures
            final(self).wf(),
            final(self)@ == spec_train(old(self)@, spec_tokenize(text@)),
    {
        let tokens = tokenize(text);
        self.train_tokens(&tokens);
    }

    fn train_tokens(&mut self, tokens: &Vec<String>)
        requires
            old(self).wf(),
        ensures
            final(self).wf(),
            final(self)@ == spec_train(old(self)@, tokens.deep_view()),
    {
        let ghost m0 = self@;
        let ghost toks = tokens.deep_view();
        let mut context: Vec<usize> = Vec::new();
        let n = tokens.len();
        let mut i: usize = 0;
        proof {
            assert(toks.take(0) =~= Seq::<Seq<char>>::empty());
            assert(context@ =~= Seq::<usize>::empty());
        }
        while i < n
            invariant
                i <= n,
                n == toks.len(),
                toks == tokens.deep_view(),
                self.wf(),
                context@.len() <= MAX_ORDER,
                forall|m: int| 0 <= m < context@.len() ==> context@[m] < self@.vocab.len(),
                (self@, context@) == spec_train_from(m0, Seq::<usize>::empty(), toks.take(i as int)),
            decreases n - i,
        {
            proof {
                lemma_train_from_snoc(m0, Seq::<usize>::empty(), toks, i as int);
                assert(tokens@[i as int]@ == toks[i as int]);
            }
            let ghost pre = self@;
            let ghost buf_pre = context@;
            let id = self.vocab.intern(tokens[i].as_str());
            proof {
                lemma_ids_bounded_mono(
                    self.freq@,
                    pre.vocab.len() as int,
                    self@.vocab.len() as int,
                );
            }
            Self::record_suffixes_exec(&mut self.freq, &context, id);
            proof {
                lemma_ids_bounded_suffixes(
                    pre.freq,
                    buf_pre,
                    id,
                    buf_pre.len() as int,
                    self@.vocab.len() as int,
                );
            }
            context.push(id);
            if context.len() > MAX_ORDER {
                context.remove(0);
                proof {
                    assert(context@ =~= buf_pre.push(id).drop_first());
                }
            }
            proof {
                assert((self@, context@) == spec_train_step(pre, buf_pre, toks[i as int]));
            }
            i = i + 1;
        }
        proof {
            assert(toks.take(n as int) =~= toks);
        }
    }
}

/// The last `cs` ids of `out`: the context used at order `cs`.
pub open spec fn context_of(out: Seq<usize>, cs: int) -> Seq<usize> {
    out.skip(out.len() - cs)
}

/// The longest order the backoff search can try for a tail of length `len`.
pub open spec fn min_order(len: int) -> int {
    if len < MAX_ORDER {
        len
    } else {
        MAX_ORDER as int
    }
}

/// The order the backoff search selects: the largest `k <= cs` whose context
/// (the last `k` ids of `out`) is recorded, or zero when none is.
pub open spec fn spec_backoff(
    f: Map<Seq<usize>, Map<usize, usize>>,
    out: Seq<usize>,
    cs: int,
) -> int
    decreases cs,
{
    if cs <= 0 {
        0
    } else if f.contains_key(context_of(out, cs)) {
        cs
    } else {
        spec_backoff(f, out, cs - 1)
    }
}

/// Backoff never skips over a recorded context: the selected order is the
/// longest recorded one, so every strictly longer context up to `cs` is
/// absent from the table, and order zero is reported only when no order at
/// all is recorded.
pub proof fn lemma_backoff_longest(
    f: Map<Seq<usize>, Map<usize, usize>>,
    out: Seq<usize>,
    cs: int,
)
    requires
        cs >= 0,
    ensures
        0 <= spec_backoff(f, out, cs) <= cs,
        spec_backoff(f, out, cs) >= 1 ==> f.contains_key(context_of(out, spec_backoff(f, out, cs))),
        forall|k: int| spec_backoff(f, out, cs) < k <= cs ==> !f.contains_key(context_of(out, k)),
    decreases cs,
{
    if cs > 0 && !f.contains_key(context_of(out, cs)) {
        lemma_backoff_longest(f, out, cs - 1);
    }
}

/// Every token of `toks` is in the vocabulary `v`.
pub open spec fn all_known(v: Seq<Seq<char>>, toks: Seq<Seq<char>>) -> bool {
    forall|i: int| 0 <= i < toks.len() ==> v.contains(#[trigger] toks[i])
}

/// The ids of the prompt tokens, resolved against the vocabulary `v`.
pub open spec fn prompt_ids(v: Seq<Seq<char>>, toks: Seq<Seq<char>>) -> Seq<usize> {
    toks.map_values(|t: Seq<char>| first_index(v, t) as usize)
}

/// The text a sequence of ids stands for: the tokens, resolved against the
/// vocabulary `v` and concatenated with no separator.
pub open spec fn spec_render(v: Seq<Seq<char>>, ids: Seq<usize>) -> Seq<char>
    decreases ids.len(),
{
    if ids.len() == 0 {
        Seq::empty()
    } else {
        v[ids[0] as int] + spec_render(v, ids.drop_first())
    }
}

proof fn lemma_render_snoc(v: Seq<Seq<char>>, ids: Seq<usize>, i: int)
    requires
        0 <= i < ids.len(),
    ensures
        spec_render(v, ids.take(i + 1)) == spec_render(v, ids.take(i)) + v[ids[i] as int],
    decreases i,
{
    if i == 0 {
        assert(ids.take(1).drop_first() =~= ids.take(0));
        assert(ids.take(1)[0] == ids[0]);
        assert(spec_render(v, ids.take(0)) =~= Seq::<char>::empty());
        assert(spec_render(v, ids.take(1)) =~= Seq::<char>::empty() + v[ids[0] as int]);
        assert(Seq::<char>::empty() + v[ids[0] as int] =~= v[ids[0] as int]);
        assert(spec_render(v, ids.take(0)) + v[ids[0] as int] =~= v[ids[0] as int]);
    } else {
        lemma_render_snoc(v, ids.drop_first(), i - 1);
        assert(ids.take(i + 1)[0] == ids[0]);
        assert(ids.take(i + 1).drop_first() =~= ids.drop_first().take(i));
        assert(ids.take(i)[0] == ids[0]);
        assert(ids.take(i).drop_first() =~= ids.drop_first().take(i - 1));
        assert(ids.drop_first()[i - 1] == ids[i]);
        assert(v[ids[0] as int] + (spec_render(v, ids.drop_first().take(i - 1)) + v[ids[i] as int])
            =~= (v[ids[0] as int] + spec_render(v, ids.drop_first().take(i - 1))) + v[ids[i] as int]);
    }
}

/// One valid generation step: the appended id has a recorded (positive) count
/// under the longest recorded context of the tail `prev`.
pub open spec fn step_ok(m: BrainModel, prev: Seq<usize>, id: usize) -> bool {
    let k = spec_backoff(m.freq, prev, min_order(prev.len() as int));
    k >= 1 && m.freq[context_of(prev, k)].contains_key(id)
}

/// A valid generation transcript: `out` starts with the prompt ids, never
/// exceeds the target length (unless the prompt alone already does), every
/// generated id is a recorded continuation of the longest recorded context of
/// the tail it extends, and generation stops short of the target only when no
/// context of the tail is recorded at all.
pub open spec fn gen_ok(
    m: BrainModel,
    pids: Seq<usize>,
    out: Seq<usize>,
    target: int,
) -> bool {
    &&& pids.len() <= out.len()
    &&& out.take(pids.len() as int) == pids
    &&& (out.len() <= target || out.len() == pids.len())
    &&& forall|i: int| pids.len() <= i < out.len() ==> step_ok(m, #[trigger] out.take(i), out[i])
    &&& out.len() < target ==> spec_backoff(m.freq, out, min_order(out.len() as int)) == 0
}

/// The generated id sequence, as a function of the model, the seed ids, the
/// target length and the sequence of random draws: tokens are appended by
/// weighted selection over the longest recorded context until the target is
/// reached, no context matches, or the draws run out.
pub closed spec fn spec_extend(b: Brain, out: Seq<usize>, target: int, draws: Seq<u64>) -> Seq<
    usize,
>
    decreases draws.len(),
{
    if out.len() >= target || draws.len() == 0 {
        out
    } else {
        let k = spec_backoff(b@.freq, out, min_order(out.len() as int));
        if k == 0 {
            out
        } else {
            let id = sample_val(b.freq, context_of(out, k), draws[0] as u128);
            spec_extend(b, out.push(id), target, draws.drop_first())
        }
    }
}

/// Generation never overruns the target and never loses the seed: the result
/// of extending `out` keeps `out` as a prefix, and its length stays within
/// the target unless `out` alone already exceeded it.
pub proof fn lemma_extend_bounds(b: Brain, out: Seq<usize>, target: int, draws: Seq<u64>)
    ensures
        out.len() <= spec_extend(b, out, target, draws).len(),
        spec_extend(b, out, target, draws).len() <= target || spec_extend(
            b,
            out,
            target,
            draws,
        ).len() == out.len(),
        spec_extend(b, out, target, draws).take(out.len() as int) == out,
    decreases draws.len(),
{
    let res = spec_extend(b, out, target, draws);
    if out.len() >= target || draws.len() == 0 {
        assert(res.take(out.len() as int) =~= out);
    } else {
        let k = spec_backoff(b@.freq, out, min_order(out.len() as int));
        if k == 0 {
            assert(res.take(out.len() as int) =~= out);
        } else {
            let id = sample_val(b.freq, context_of(out, k), draws[0] as u128);
            lemma_extend_bounds(b, out.push(id), target, draws.drop_first());
            assert(res.take(out.len() as int) =~= res.take(out.push(id).len() as int).take(
                out.len() as int,
            ));
            assert(out.push(id).take(out.len() as int) =~= out);
        }
    }
}

impl Brain {
    fn resolve_prompt(&self, text: &str) -> (r: Result<Vec<usize>, BrainError>)
        requires
            self.wf(),
        ensures
            r is Err <==> !all_known(self@.vocab, spec_tokenize(text@)),
            r matches Ok(ids) ==> ids@ == prompt_ids(self@.vocab, spec_tokenize(text@)) && (
            forall|m: int| 0 <= m < ids@.len() ==> ids@[m] < self@.vocab.len()),
    {
        let toks = tokenize(text);
        let ghost tv = toks.deep_view();
        let n = toks.len();
        let mut ids: Vec<usize> = Vec::new();
        let mut i: usize = 0;
        proof {
            assert(ids@ =~= prompt_ids(self@.vocab, tv.take(0)));
        }
        while i < n
            invariant
                i <= n,
                n == tv.len(),
                tv == toks.deep_view(),
                tv == spec_tokenize(text@),
                self.wf(),
                forall|m: int| 0 <= m < i ==> self@.vocab.contains(#[trigger] tv[m]),
                ids@ == prompt_ids(self@.vocab, tv.take(i as int)),
                forall|m: int| 0 <= m < ids@.len() ==> ids@[m] < self@.vocab.len(),
            decreases n - i,
        {
            proof {
                assert(toks@[i as int]@ == tv[i as int]);
            }
            match self.vocab.lookup(toks[i].as_str()) {
                None => {
                    proof {
                        assert(!all_known(self@.vocab, tv));
                    }
                    return Err(BrainError::UnknownToken);
                },
                Some(id) => {
                    proof {
                        lemma_index_unique(self@.vocab, tv[i as int], id as int);
                        assert(prompt_ids(self@.vocab, tv.take(i + 1)) =~= ids@.push(id));
                    }
                    ids.push(id);
                },
            }
            i = i + 1;
        }
        proof {
            assert(tv.take(n as int) =~= tv);
        }
        Ok(ids)
    }

    fn next_token(&self, out: &Vec<usize>) -> (o: Option<usize>)
        requires
            self.wf(),
        ensures
            ({
                let k = spec_backoff(self@.freq, out@, min_order(out@.len() as int));
                match o {
                    None => k == 0,
                    Some(id) => k >= 1 && self@.freq[context_of(out@, k)].contains_key(id) && id
                        < self@.vocab.len(),
                }
            }),
    {
        let len = out.len();
        let mut cs: usize = if len < MAX_ORDER {
            len
        } else {
            MAX_ORDER
        };
        while cs >= 1
            invariant
                cs <= min_order(len as int),
                len == out@.len(),
                self.wf(),
                spec_backoff(self@.freq, out@, min_order(len as int)) == spec_backoff(
                    self@.freq,
                    out@,
                    cs as int,
                ),
            decreases cs,
        {
            let sub = tail_context(out, cs);
            match self.freq.sample(&sub) {
                Some(id) => {
                    return Some(id);
                },
                None => {
                    cs = cs - 1;
                },
            }
        }
        None
    }

    fn next_token_with(&self, out: &Vec<usize>, draw: u64) -> (o: Option<usize>)
        requires
            self.wf(),
        ensures
            ({
                let k = spec_backoff(self@.freq, out@, min_order(out@.len() as int));
                match o {
                    None => k == 0,
                    Some(id) => k >= 1 && id == sample_val(
                        self.freq,
                        context_of(out@, k),
                        draw as u128,
                    ) && self@.freq[context_of(out@, k)].contains_key(id) && id
                        < self@.vocab.len(),
                }
            }),
    {
        let len = out.len();
        let mut cs: usize = if len < MAX_ORDER {
            len
        } else {
            MAX_ORDER
        };
        while cs >= 1
            invariant
                cs <= min_order(len as int),
                len == out@.len(),
                self.wf(),
                spec_backoff(self@.freq, out@, min_order(len as int)) == spec_backoff(
                    self@.freq,
                    out@,
                    cs as int,
                ),
            decreases cs,
        {
            let sub = tail_context(out, cs);
            match self.freq.sample_with(&sub, draw as u128) {
                Some(id) => {
                    return Some(id);
                },
                None => {
                    cs = cs - 1;
                },
            }
        }
        None
    }

    fn render_ids(&self, ids: &Vec<usize>) -> (s: String)
        requires
            self.wf(),
            forall|m: int| 0 <= m < ids@.len() ==> ids@[m] < self@.vocab.len(),
        ensures
            s@ == spec_render(self@.vocab, ids@),
    {
        let n = ids.len();
        let mut s = String::new();
        let mut i: usize = 0;
        proof {
            assert(spec_render(self@.vocab, ids@.take(0)) =~= Seq::<char>::empty());
        }
        while i < n
            invariant
                i <= n,
                n == ids@.len(),
                self.wf(),
                forall|m: int| 0 <= m < ids@.len() ==> ids@[m] < self@.vocab.len(),
                s@ == spec_render(self@.vocab, ids@.take(i as int)),
            decreases n - i,
        {
            let tok = self.vocab.resolve(ids[i]);
            proof {
                lemma_render_snoc(self@.vocab, ids@, i as int);
            }
            s.append(tok.as_str());
            i = i + 1;
        }
        proof {
            assert(ids@.take(n as int) =~= ids@);
        }
        s
    }

    /// Generates a continuation of `text` with at most `length` tokens in
    /// all: the prompt ids seed the output, and tokens are appended by
    /// frequency-weighted random draws over the longest recorded context of
    /// the tail, falling back to shorter contexts only when no longer one is
    /// recorded, and stopping early only when no context at all matches.
    /// Fails exactly when the prompt holds a token never seen in training,
    /// and then produces no output at all.
    pub fn prompt(&self, text: &str, length: usize) -> (r: Result<String, BrainError>)
        requires
            self.wf(),
        ensures
            r is Err <==> !all_known(self@.vocab, spec_tokenize(text@)),
            r matches Ok(s) ==> exists|out: Seq<usize>|
                gen_ok(
                    self@,
                    prompt_ids(self@.vocab, spec_tokenize(text@)),
                    out,
                    length as int,
                ) && s@ == spec_render(self@.vocab, out),
    {
        let mut out = match self.resolve_prompt(text) {
            Err(e) => {
                return Err(e);
            },
            Ok(ids) => ids,
        };
        let ghost pids = out@;
        let mut done = false;
        proof {
            assert(out@.take(pids.len() as int) =~= pids);
        }
        while !done && out.len() < length
            invariant
                self.wf(),
                pids == prompt_ids(self@.vocab, spec_tokenize(text@)),
                pids.len() <= out@.len(),
                out@.take(pids.len() as int) == pids,
                out@.len() <= length || out@.len() == pids.len(),
                forall|i: int|
                    pids.len() <= i < out@.len() ==> step_ok(self@, #[trigger] out@.take(i), out@[i]),
                forall|m: int| 0 <= m < out@.len() ==> out@[m] < self@.vocab.len(),
                done ==> spec_backoff(self@.freq, out@, min_order(out@.len() as int)) == 0,
            decreases length - out@.len() + (if done {
                0int
            } else {
                1int
            }),
        {
            match self.next_token(&out) {
                Some(id) => {
                    let ghost prev = out@;
                    out.push(id);
                    proof {
                        assert(step_ok(self@, prev, id));
                        assert(out@.take(prev.len() as int) =~= prev);
                        assert(out@.take(pids.len() as int) =~= prev.take(pids.len() as int));
                        assert forall|i: int|
                            pids.len() <= i < out@.len() implies step_ok(
                            self@,
                            #[trigger] out@.take(i),
                            out@[i],
                        ) by {
                            assert(out@.take(i) =~= prev.take(i));
                            if i < prev.len() {
                                assert(step_ok(self@, prev.take(i), prev[i]));
                            }
                        }
                    }
                },
                None => {
                    done = true;
                },
            }
        }
        let s = self.render_ids(&out);
        proof {
            assert(gen_ok(self@, pids, out@, length as int));
        }
        Ok(s)
    }

    /// Deterministic generation: the caller supplies the sequence of random
    /// draws, and the result is a function of the model, the prompt, the
    /// target length and those draws alone — equal inputs give equal output.
    /// Generation stops at `length` tokens in all, when no recorded context
    /// matches the tail, or when the draws are exhausted. Fails exactly when
    /// the prompt holds a token never seen in training.
    pub fn prompt_with_draws(&self, text: &str, length: usize, draws: &Vec<u64>) -> (r: Result<
        String,
        BrainError,
    >)
        requires
            self.wf(),
        ensures
            r is Err <==> !all_known(self@.vocab, spec_tokenize(text@)),
            r matches Ok(s) ==> s@ == spec_render(
                self@.vocab,
                spec_extend(
                    *self,
                    prompt_ids(self@.vocab, spec_tokenize(text@)),
                    length as int,
                    draws@,
                ),
            ),
    {
        let mut out = match self.resolve_prompt(text) {
            Err(e) => {
                return Err(e);
            },
            Ok(ids) => ids,
        };
        let ghost pids = out@;
        let ghost fin = spec_extend(*self, pids, length as int, draws@);
        let mut di: usize = 0;
        let mut done = false;
        proof {
            assert(draws@.skip(0) =~= draws@);
        }
        while !done && out.len() < length && di < draws.len()
            invariant
                self.wf(),
                di <= draws@.len(),
                pids == prompt_ids(self@.vocab, spec_tokenize(text@)),
                fin == spec_extend(*self, pids, length as int, draws@),
                fin == spec_extend(*self, out@, length as int, draws@.skip(di as int)),
                forall|m: int| 0 <= m < out@.len() ==> out@[m] < self@.vocab.len(),
                done ==> fin == out@,
            decreases draws@.len() - di + (if done {
                0int
            } else {
                1int
            }),
        {
            proof {
                assert(draws@.skip(di as int)[0] == draws@[di as int]);
                assert(draws@.skip(di as int).drop_first() =~= draws@.skip(di as int + 1));
            }
            match self.next_token_with(&out, draws[di]) {
                Some(id) => {
                    out.push(id);
                    di = di + 1;
                },
                None => {
                    done = true;
                },
            }
        }
        proof {
            if !done {
                if out@.len() >= length {
                    assert(fin == out@);
                } else {
                    assert(di == draws@.len());
                    assert(draws@.skip(di as int).len() == 0);
                    assert(fin == out@);
                }
            }
        }
        let s = self.render_ids(&out);
        Ok(s)
    }
}

} // verus!
