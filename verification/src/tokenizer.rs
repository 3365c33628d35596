use vstd::prelude::*;

verus! {

/// Whether a character counts as alphanumeric for tokenization purposes.
/// Relies on char::is_alphanumeric: the Unicode classification of a character
/// depends on the character alone.
pub uninterp spec fn is_alphanum(c: char) -> bool;

/// Relies on char::is_alphanumeric (the Unicode alphanumeric classification),
/// which never panics and depends only on its argument.
#[verifier::external_body]
fn char_alphanumeric(c: char) -> (r: bool)
    ensures
        r == is_alphanum(c),
{
    c.is_alphanumeric()
}

/// Length of the maximal alphanumeric prefix of `s`.
pub open spec fn alnum_run_len(s: Seq<char>) -> nat
    decreases s.len(),
{
    if s.len() == 0 || !is_alphanum(s[0]) {
        0
    } else {
        (1 + alnum_run_len(s.skip(1))) as nat
    }
}

pub proof fn lemma_alnum_run_len_le(s: Seq<char>)
    ensures
        alnum_run_len(s) <= s.len(),
    decreases s.len(),
{
    if s.len() != 0 && is_alphanum(s[0]) {
        lemma_alnum_run_len_le(s.skip(1));
    }
}

/// Length of the first token of `s`: a maximal alphanumeric run, or one
/// single non-alphanumeric character.
pub open spec fn token_run(s: Seq<char>) -> nat {
    if s.len() == 0 {
        0
    } else if is_alphanum(s[0]) {
        alnum_run_len(s)
    } else {
        1
    }
}

/// The token sequence of `s`: left to right, each maximal alphanumeric run is
/// one token, and every other character is a token of its own.
pub open spec fn spec_tokenize(s: Seq<char>) -> Seq<Seq<char>>
    decreases s.len(),
    via spec_tokenize_decreases
{
    if s.len() == 0 {
        Seq::empty()
    } else {
        seq![s.take(token_run(s) as int)] + spec_tokenize(s.skip(token_run(s) as int))
    }
}

#[via_fn]
proof fn spec_tokenize_decreases(s: Seq<char>) {
    if s.len() != 0 {
        lemma_alnum_run_len_le(s);
        assert(1 <= token_run(s) <= s.len());
    }
}

pub proof fn lemma_alnum_run_len_is(s: Seq<char>, k: int)
    requires
        0 <= k <= s.len(),
        forall|m: int| 0 <= m < k ==> is_alphanum(s[m]),
        k == s.len() || !is_alphanum(s[k]),
    ensures
        alnum_run_len(s) == k,
    decreases k,
{
    if k == 0 {
        if s.len() > 0 {
            assert(!is_alphanum(s[0]));
        }
    } else {
        assert(is_alphanum(s[0]));
        assert(forall|m: int| 0 <= m < s.skip(1).len() ==> s.skip(1)[m] == s[m + 1]);
        lemma_alnum_run_len_is(s.skip(1), k - 1);
    }
}

/// The index right after the alphanumeric run that starts at `start`.
fn alnum_end(s: &str, start: usize, n: usize) -> (j: usize)
    requires
        n == s@.len(),
        start < n,
        is_alphanum(s@[start as int]),
    ensures
        start < j <= n,
        forall|m: int| start <= m < j ==> is_alphanum(s@[m]),
        j == n || !is_alphanum(s@[j as int]),
{
    let mut j: usize = start + 1;
    while j < n
        invariant
            start < j <= n,
            n == s@.len(),
            forall|m: int| start <= m < j ==> is_alphanum(s@[m]),
        decreases n - j,
    {
        let c = s.get_char(j);
        if !char_alphanumeric(c) {
            return j;
        }
        j = j + 1;
    }
    j
}

/// Splits `s` into tokens: maximal alphanumeric runs, and every other
/// character as a token of its own. No character is dropped or merged.
pub fn tokenize(s: &str) -> (r: Vec<String>)
    ensures
        r.deep_view() == spec_tokenize(s@),
{
    let n = s.unicode_len();
    let mut r: Vec<String> = Vec::new();
    let mut i: usize = 0;
    proof {
        assert(s@.skip(0) =~= s@);
        assert(r.deep_view() =~= Seq::<Seq<char>>::empty());
    }
    while i < n
        invariant
            i <= n,
            n == s@.len(),
            spec_tokenize(s@) == r.deep_view() + spec_tokenize(s@.skip(i as int)),
        decreases n - i,
    {
        let ghost tail = s@.skip(i as int);
        let c = s.get_char(i);
        proof {
            assert(forall|m: int| 0 <= m < tail.len() ==> tail[m] == s@[m + i]);
            assert(tail[0] == s@[i as int]);
        }
        let j: usize;
        if char_alphanumeric(c) {
            j = alnum_end(s, i, n);
            proof {
                lemma_alnum_run_len_is(tail, j - i);
                assert(token_run(tail) == j - i);
            }
        } else {
            j = i + 1;
            proof {
                assert(token_run(tail) == 1);
            }
        }
        let tok = s.substring_char(i, j).to_owned();
        proof {
            assert(tok@ =~= tail.take(j - i));
            assert(tail.skip(j - i) =~= s@.skip(j as int));
            assert(spec_tokenize(tail) == seq![tail.take(j - i)] + spec_tokenize(
                s@.skip(j as int),
            ));
            assert((r.deep_view() + spec_tokenize(tail)).take(r.deep_view().len() as int + 1) =~= r
                .deep_view().push(tok@));
        }
        let ghost old_r = r.deep_view();
        r.push(tok);
        proof {
            assert(r.deep_view() =~= old_r.push(tok@));
            assert(old_r.push(tok@) + spec_tokenize(s@.skip(j as int)) =~= old_r + spec_tokenize(
                tail,
            ));
        }
        i = j;
    }
    proof {
        assert(s@.skip(n as int).len() == 0);
        assert(r.deep_view() + spec_tokenize(s@.skip(n as int)) =~= r.deep_view());
    }
    r
}

/// Concatenation of a sequence of tokens.
pub open spec fn concat_tokens(ts: Seq<Seq<char>>) -> Seq<char>
    decreases ts.len(),
{
    if ts.len() == 0 {
        Seq::empty()
    } else {
        ts[0] + concat_tokens(ts.drop_first())
    }
}

/// Tokenization splits without loss: concatenating the tokens of `s` in order
/// gives back `s` exactly.
pub proof fn lemma_tokenize_round_trip(s: Seq<char>)
    ensures
        concat_tokens(spec_tokenize(s)) == s,
    decreases s.len(),
{
    if s.len() == 0 {
        assert(concat_tokens(spec_tokenize(s)) =~= s);
    } else {
        let n = token_run(s) as int;
        lemma_alnum_run_len_le(s);
        lemma_tokenize_round_trip(s.skip(n));
        assert((seq![s.take(n)] + spec_tokenize(s.skip(n))).drop_first() =~= spec_tokenize(
            s.skip(n),
        ));
        assert(concat_tokens(spec_tokenize(s)) =~= s.take(n) + concat_tokens(
            spec_tokenize(s.skip(n)),
        ));
        assert(s.take(n) + s.skip(n) =~= s);
    }
}

} // verus!
