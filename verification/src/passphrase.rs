//! The passphrase assembler: 4 tokens drawn from the corpus without
//! replacement, each suffixed with one random decimal digit, the parts
//! joined by hyphens. Randomness comes from rand's thread-local generator
//! behind trusted wrappers whose contracts state what holds of every
//! outcome.

use vstd::prelude::*;

use rand::Rng;
use rand::seq::SliceRandom;

use crate::corpus::Corpus;
use crate::text::join_with;
use crate::text::join_strs;
use crate::text::push_char;
use crate::text::split_on;
use crate::text::lemma_join_then_split;

verus! {

/// rand's thread-local generator. Its state is opaque here: nothing is ever
/// claimed about which values it yields, only about their range.
#[verifier::external_type_specification]
#[verifier::external_body]
pub struct ExThreadRng(rand::rngs::ThreadRng);

/// Relies on `rand::thread_rng`: a fresh handle to the calling thread's
/// generator, independent of every other thread's.
pub assume_specification[ rand::thread_rng ]() -> rand::rngs::ThreadRng;

/// Relies on `rand::Rng::gen_range` over `0..n`: a value drawn from the
/// range, which must be non-empty or the call panics. Which value comes back
/// is random, so only the bound is stated.
#[verifier::external_body]
fn rand_below(rng: &mut rand::rngs::ThreadRng, n: usize) -> (r: usize)
    requires
        n >= 1,
    ensures
        r < n,
{
    rng.gen_range(0..n)
}

/// Whether `idxs` lists pairwise-distinct positions of a sequence of `n`
/// elements.
pub open spec fn distinct_positions(idxs: Seq<int>, n: int) -> bool {
    &&& forall|i: int| 0 <= i < idxs.len() ==> 0 <= #[trigger] idxs[i] < n
    &&& forall|i: int, j: int| 0 <= i < j < idxs.len() ==> idxs[i] != idxs[j]
}

/// Whether `picks` reads `corpus` off at some list of pairwise-distinct
/// positions: what drawing without replacement guarantees of its result,
/// whatever the randomness did.
pub open spec fn sampled_without_replacement(picks: Seq<Seq<char>>, corpus: Seq<Seq<char>>) -> bool {
    exists|idxs: Seq<int>|
        {
            &&& #[trigger] distinct_positions(idxs, corpus.len() as int)
            &&& idxs.len() == picks.len()
            &&& forall|i: int| 0 <= i < picks.len() ==> picks[i] == corpus[#[trigger] idxs[i]]
        }
}

/// Relies on `rand::seq::SliceRandom::choose_multiple`, documented to choose
/// `amount` elements from the slice at random, without repetition and in
/// random order: the result holds `amount` elements read off the slice at
/// pairwise-distinct positions.
#[verifier::external_body]
fn choose_distinct(words: &Vec<String>, rng: &mut rand::rngs::ThreadRng, amount: usize) -> (r:
    Vec<String>)
    requires
        amount <= words@.len(),
    ensures
        r.deep_view().len() == amount,
        sampled_without_replacement(r.deep_view(), words.deep_view()),
{
    words.as_slice().choose_multiple(rng, amount).cloned().collect()
}

/// The character of one decimal digit; anything above 9 is treated as 9 so
/// the function is total.
pub open spec fn digit_char(d: u8) -> char {
    if d == 0 {
        '0'
    } else if d == 1 {
        '1'
    } else if d == 2 {
        '2'
    } else if d == 3 {
        '3'
    } else if d == 4 {
        '4'
    } else if d == 5 {
        '5'
    } else if d == 6 {
        '6'
    } else if d == 7 {
        '7'
    } else if d == 8 {
        '8'
    } else {
        '9'
    }
}

/// Every digit character is one of `0` to `9`; none is a hyphen.
pub proof fn lemma_digit_char_no_hyphen(d: u8)
    ensures
        digit_char(d) != '-',
{
}

fn digit_char_of(d: u8) -> (c: char)
    ensures
        c == digit_char(d),
{
    if d == 0 {
        '0'
    } else if d == 1 {
        '1'
    } else if d == 2 {
        '2'
    } else if d == 3 {
        '3'
    } else if d == 4 {
        '4'
    } else if d == 5 {
        '5'
    } else if d == 6 {
        '6'
    } else if d == 7 {
        '7'
    } else if d == 8 {
        '8'
    } else {
        '9'
    }
}

/// One passphrase part: the token immediately followed by one digit.
pub open spec fn part_of(w: Seq<char>, d: u8) -> Seq<char> {
    w.push(digit_char(d))
}

/// The whole passphrase: one part per token, the parts joined by hyphens.
pub open spec fn passphrase_of(ws: Seq<Seq<char>>, ds: Seq<u8>) -> Seq<char> {
    join_with(Seq::new(ws.len(), |i: int| part_of(ws[i], ds[i])), '-')
}

/// Splitting an assembled passphrase on hyphens gives exactly its parts
/// back, one per chosen token, each the token immediately followed by its
/// digit — provided the tokens themselves are hyphen-free, as every cleaned
/// token is.
pub proof fn lemma_passphrase_parts(ws: Seq<Seq<char>>, ds: Seq<u8>)
    requires
        ws.len() >= 1,
        ds.len() == ws.len(),
        forall|i: int| 0 <= i < ws.len() ==> !(#[trigger] ws[i]).contains('-'),
    ensures
        split_on(passphrase_of(ws, ds), '-') == Seq::new(
            ws.len(),
            |i: int| part_of(ws[i], ds[i]),
        ),
{
    let parts = Seq::new(ws.len(), |i: int| part_of(ws[i], ds[i]));
    assert forall|i: int| 0 <= i < parts.len() implies !(#[trigger] parts[i]).contains('-') by {
        let p = parts[i];
        assert(forall|j: int| 0 <= j < ws[i].len() ==> ws[i][j] != '-');
        lemma_digit_char_no_hyphen(ds[i]);
        assert(forall|j: int| 0 <= j < p.len() ==> p[j] != '-');
    }
    lemma_join_then_split(parts, '-');
}

/// In one passphrase the chosen tokens are pairwise distinct whenever the
/// corpus entries are pairwise distinct: distinct positions of a
/// duplicate-free corpus hold distinct tokens.
pub proof fn lemma_tokens_pairwise_distinct(picks: Seq<Seq<char>>, corpus: Seq<Seq<char>>)
    requires
        sampled_without_replacement(picks, corpus),
        forall|i: int, j: int| 0 <= i < j < corpus.len() ==> corpus[i] != corpus[j],
    ensures
        forall|i: int, j: int| 0 <= i < j < picks.len() ==> picks[i] != picks[j],
{
    let idxs = choose|idxs: Seq<int>|
        {
            &&& #[trigger] distinct_positions(idxs, corpus.len() as int)
            &&& idxs.len() == picks.len()
            &&& forall|i: int| 0 <= i < picks.len() ==> picks[i] == corpus[#[trigger] idxs[i]]
        };
    assert forall|i: int, j: int| 0 <= i < j < picks.len() implies picks[i] != picks[j] by {
        assert(idxs[i] != idxs[j]);
        if idxs[i] < idxs[j] {
            assert(corpus[idxs[i]] != corpus[idxs[j]]);
        } else {
            assert(corpus[idxs[j]] != corpus[idxs[i]]);
        }
    }
}

/// Whether `p` is a passphrase the corpus admits: 4 tokens read off the
/// corpus at pairwise-distinct positions, each suffixed with one decimal
/// digit, the parts joined by hyphens.
pub open spec fn admissible_passphrase(p: Seq<char>, corpus: Seq<Seq<char>>) -> bool {
    exists|ws: Seq<Seq<char>>, ds: Seq<u8>|
        {
            &&& ws.len() == 4
            &&& ds.len() == 4
            &&& (forall|i: int| 0 <= i < 4 ==> #[trigger] ds[i] < 10)
            &&& #[trigger] sampled_without_replacement(ws, corpus)
            &&& p == #[trigger] passphrase_of(ws, ds)
        }
}

/// A part determines its token: equal parts come from equal tokens, so
/// pairwise-distinct tokens render to pairwise-distinct parts.
pub proof fn lemma_part_determines_token(w1: Seq<char>, d1: u8, w2: Seq<char>, d2: u8)
    requires
        part_of(w1, d1) == part_of(w2, d2),
    ensures
        w1 == w2,
{
    assert(part_of(w1, d1).len() == w1.len() + 1);
    assert(part_of(w1, d1).drop_last() =~= w1);
    assert(part_of(w2, d2).drop_last() =~= w2);
}

/// Every passphrase the assembler can return for a corpus of hyphen-free
/// tokens splits on hyphens into exactly 4 parts, each a corpus token
/// immediately followed by one decimal digit.
pub proof fn lemma_passphrase_shape(p: Seq<char>, corpus: Seq<Seq<char>>)
    requires
        admissible_passphrase(p, corpus),
        forall|i: int| 0 <= i < corpus.len() ==> !(#[trigger] corpus[i]).contains('-'),
    ensures
        split_on(p, '-').len() == 4,
        forall|k: int| 0 <= k < 4 ==> exists|i: int, d: u8|
            {
                &&& 0 <= i < corpus.len()
                &&& d < 10
                &&& #[trigger] split_on(p, '-')[k] == part_of(corpus[i], d)
            },
{
    let (ws, ds) = choose|ws: Seq<Seq<char>>, ds: Seq<u8>|
        {
            &&& ws.len() == 4
            &&& ds.len() == 4
            &&& (forall|i: int| 0 <= i < 4 ==> #[trigger] ds[i] < 10)
            &&& #[trigger] sampled_without_replacement(ws, corpus)
            &&& p == #[trigger] passphrase_of(ws, ds)
        };
    let idxs = choose|idxs: Seq<int>|
        {
            &&& #[trigger] distinct_positions(idxs, corpus.len() as int)
            &&& idxs.len() == ws.len()
            &&& forall|i: int| 0 <= i < ws.len() ==> ws[i] == corpus[#[trigger] idxs[i]]
        };
    assert forall|i: int| 0 <= i < ws.len() implies !(#[trigger] ws[i]).contains('-') by {
        assert(ws[i] == corpus[idxs[i]]);
    }
    lemma_passphrase_parts(ws, ds);
    assert forall|k: int| 0 <= k < 4 implies exists|i: int, d: u8|
        {
            &&& 0 <= i < corpus.len()
            &&& d < 10
            &&& #[trigger] split_on(p, '-')[k] == part_of(corpus[i], d)
        } by {
        let i0 = idxs[k];
        let d0 = ds[k];
        assert(0 <= i0 < corpus.len());
        assert(d0 < 10);
        assert(split_on(p, '-')[k] == part_of(corpus[i0], d0));
    }
}

/// The per-request failure: the corpus holds fewer than 4 tokens, so no
/// passphrase can be drawn without replacement.
#[derive(Clone, Copy, PartialEq, Eq, Structural, Debug)]
pub struct InsufficientCorpusError;

impl InsufficientCorpusError {
    /// The human-readable description served with the failure.
    pub fn message(&self) -> (m: String)
        ensures
            m@ == "the corpus holds fewer than 4 tokens"@,
    {
        let m: &str = "the corpus holds fewer than 4 tokens";
        m.to_owned()
    }
}

/// Builds the passphrase for already-chosen tokens and digits: each part is
/// the token immediately followed by its digit, the parts joined by hyphens.
/// This is the whole of the assembly once the random draws are fixed, so it
/// holds for every value the randomness can take.
pub fn assemble(words: &Vec<String>, digits: &Vec<u8>) -> (r: String)
    requires
        words@.len() == digits@.len(),
    ensures
        r@ == passphrase_of(words.deep_view(), digits@),
{
    let ghost wv = words.deep_view();
    let ghost dv = digits@;
    let ghost parts_spec = Seq::new(wv.len(), |k: int| part_of(wv[k], dv[k]));
    let mut parts: Vec<String> = Vec::new();
    let mut i: usize = 0;
    while i < words.len()
        invariant
            i <= words@.len(),
            wv == words.deep_view(),
            dv == digits@,
            wv.len() == words@.len(),
            dv.len() == words@.len(),
            parts_spec == Seq::new(wv.len(), |k: int| part_of(wv[k], dv[k])),
            parts.deep_view() == parts_spec.subrange(0, i as int),
        decreases words@.len() - i,
    {
        let ghost old_parts = parts.deep_view();
        let mut p = words[i].clone();
        proof {
            assert(p@ == wv[i as int]);
        }
        push_char(&mut p, digit_char_of(digits[i]));
        parts.push(p);
        proof {
            assert(parts.deep_view() =~~= old_parts.push(part_of(wv[i as int], dv[i as int])));
            assert(parts.deep_view() =~~= parts_spec.subrange(0, i + 1));
        }
        i = i + 1;
    }
    proof {
        assert(parts.deep_view() =~~= parts_spec);
    }
    join_strs(&parts, '-')
}

/// One passphrase drawn from the shared corpus with a fresh randomness
/// source: succeeds exactly when the corpus holds at least 4 tokens, and
/// every success is an admissible passphrase of that corpus.
pub fn generate_password(corpus: &Corpus) -> (r: Result<String, InsufficientCorpusError>)
    ensures
        r is Ok <==> corpus@.len() >= 4,
        r matches Ok(p) ==> admissible_passphrase(p@, corpus@),
{
    if corpus.len() < 4 {
        return Err(InsufficientCorpusError);
    }
    let mut rng = rand::thread_rng();
    let words = choose_distinct(corpus.word_vec(), &mut rng, 4);
    let mut digits: Vec<u8> = Vec::new();
    let mut i: usize = 0;
    while i < 4
        invariant
            i <= 4,
            digits@.len() == i,
            forall|k: int| 0 <= k < i ==> #[trigger] digits@[k] < 10,
        decreases 4 - i,
    {
        let d = rand_below(&mut rng, 10);
        digits.push(d as u8);
        i = i + 1;
    }
    let p = assemble(&words, &digits);
    proof {
        let ws = words.deep_view();
        let ds = digits@;
        assert(ws.len() == 4);
        assert(ds.len() == 4);
        assert(forall|k: int| 0 <= k < 4 ==> #[trigger] ds[k] < 10);
        assert(sampled_without_replacement(ws, corpus@));
        assert(p@ == passphrase_of(ws, ds));
        assert(admissible_passphrase(p@, corpus@));
    }
    Ok(p)
}

} // verus!
