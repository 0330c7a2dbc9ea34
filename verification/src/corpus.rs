//! The in-memory corpus: an ordered sequence of tokens, loaded once from the
//! word-list artifact at startup and then shared read-only — duplicates are
//! allowed and nothing is ever mutated after construction.

use vstd::prelude::*;
use vstd::string::StringExecFns;

use crate::text::lines_of;
use crate::text::push_char;
use crate::text::split_lines;
use crate::text::split_on;
use crate::text::lemma_split_extend;
use crate::text::lemma_split_sep;
use crate::extract::column_of;
use crate::extract::extract_spec;
use crate::extract::lemma_extracted_tokens_line_safe;

verus! {

/// The word-list artifact's text: each token in order, each closed by a
/// newline.
pub open spec fn artifact_of(tokens: Seq<Seq<char>>) -> Seq<char>
    decreases tokens.len(),
{
    if tokens.len() == 0 {
        Seq::<char>::empty()
    } else {
        artifact_of(tokens.drop_last()) + tokens.last() + seq!['\n']
    }
}

/// Renders the word-list artifact for the extracted tokens, one per line.
pub fn artifact_text(tokens: &Vec<String>) -> (r: String)
    ensures
        r@ == artifact_of(tokens.deep_view()),
{
    let mut out = String::new();
    let mut i: usize = 0;
    proof {
        assert(tokens.deep_view().subrange(0, 0) =~~= Seq::<Seq<char>>::empty());
        assert(out@ =~= artifact_of(tokens.deep_view().subrange(0, 0)));
    }
    while i < tokens.len()
        invariant
            i <= tokens@.len(),
            tokens.deep_view().len() == tokens@.len(),
            out@ == artifact_of(tokens.deep_view().subrange(0, i as int)),
        decreases tokens@.len() - i,
    {
        let ghost tv = tokens.deep_view();
        let ghost pre = tv.subrange(0, i as int);
        let ghost post = tv.subrange(0, i + 1);
        proof {
            assert(post.drop_last() =~~= pre);
            assert(post.last() == tv[i as int]);
            assert(tv[i as int] == tokens@[i as int].deep_view());
        }
        out.append(tokens[i].as_str());
        push_char(&mut out, '\n');
        proof {
            assert(out@ =~= artifact_of(post));
        }
        i = i + 1;
    }
    proof {
        assert(tokens.deep_view().subrange(0, tokens@.len() as int) =~~= tokens.deep_view());
    }
    out
}

/// Splitting the rendered artifact on newlines gives the tokens back,
/// followed by the one empty piece its trailing newline opens.
proof fn lemma_artifact_split(tokens: Seq<Seq<char>>)
    requires
        forall|i: int| 0 <= i < tokens.len() ==> !(#[trigger] tokens[i]).contains('\n'),
    ensures
        split_on(artifact_of(tokens), '\n') == tokens.push(Seq::<char>::empty()),
    decreases tokens.len(),
{
    if tokens.len() == 0 {
        assert(artifact_of(tokens) =~= Seq::<char>::empty());
        assert(split_on(artifact_of(tokens), '\n') =~~= tokens.push(Seq::<char>::empty()));
    } else {
        let init = tokens.drop_last();
        let lastt = tokens.last();
        assert(forall|i: int| 0 <= i < init.len() ==> init[i] == tokens[i]);
        lemma_artifact_split(init);
        let a = artifact_of(init);
        lemma_split_extend(a, lastt, '\n');
        let r = split_on(a, '\n');
        assert(r == init.push(Seq::<char>::empty()));
        assert(r.last() =~= Seq::<char>::empty());
        assert(Seq::<char>::empty() + lastt =~= lastt);
        assert(split_on(a + lastt, '\n') =~~= init.push(lastt));
        lemma_split_sep(a + lastt, '\n');
        assert((a + lastt) + seq!['\n'] =~= artifact_of(tokens));
        assert(split_on(artifact_of(tokens), '\n') =~~= tokens.push(Seq::<char>::empty()));
    }
}

/// Writing then loading restores the corpus exactly: for tokens free of
/// newlines, the lines of the rendered artifact are the tokens themselves,
/// in the same order.
pub proof fn lemma_artifact_round_trip(tokens: Seq<Seq<char>>)
    requires
        forall|i: int| 0 <= i < tokens.len() ==> !(#[trigger] tokens[i]).contains('\n'),
    ensures
        lines_of(artifact_of(tokens)) == tokens,
{
    lemma_artifact_split(tokens);
    let ps = tokens.push(Seq::<char>::empty());
    assert(ps.last().len() == 0);
    assert(ps.drop_last() =~~= tokens);
}

/// The corpus a process serves from: its tokens in artifact order. It is
/// built once and only read afterwards, so sharing it between request
/// handlers needs no locking.
pub struct Corpus {
    words: Vec<String>,
}

impl View for Corpus {
    type V = Seq<Seq<char>>;

    closed spec fn view(&self) -> Seq<Seq<char>> {
        self.words.deep_view()
    }
}

impl Corpus {
    /// A corpus holding exactly the given tokens, in order.
    pub fn new(words: Vec<String>) -> (c: Corpus)
        ensures
            c@ == words.deep_view(),
    {
        Corpus { words }
    }

    /// The loader: the artifact's lines, in order, with no transformation.
    pub fn from_text(text: &str) -> (c: Corpus)
        ensures
            c@ == lines_of(text@),
    {
        Corpus::new(split_lines(text))
    }

    /// How many tokens the corpus holds.
    pub fn len(&self) -> (n: usize)
        ensures
            n == self@.len(),
    {
        self.words.len()
    }

    /// The token at position `i`.
    pub fn get(&self, i: usize) -> (w: &String)
        requires
            i < self@.len(),
        ensures
            w@ == self@[i as int],
    {
        &self.words[i]
    }

    pub(crate) fn word_vec(&self) -> (r: &Vec<String>)
        ensures
            r.deep_view() == self@,
    {
        &self.words
    }
}

/// The extraction-to-load pipeline round-trips: the lines of the artifact
/// rendered from an extracted corpus are exactly its tokens, in order, so
/// what the extractor kept is exactly what every request handler later
/// draws from.
pub proof fn lemma_pipeline_round_trip(text: Seq<char>, column: Seq<char>)
    requires
        column_of(text, column) is Some,
    ensures
        lines_of(artifact_of(extract_spec(column_of(text, column)->0))) == extract_spec(
            column_of(text, column)->0,
        ),
{
    lemma_extracted_tokens_line_safe(text, column);
    lemma_artifact_round_trip(extract_spec(column_of(text, column)->0));
}

} // verus!
