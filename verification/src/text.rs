//! Character-sequence utilities shared by the corpus pipeline and the
//! passphrase assembler: splitting on a separator, joining with a separator,
//! and trimming surrounding blanks, each with an exact specification.

use vstd::prelude::*;
use vstd::string::StrSliceExecFns;
use vstd::string::StringExecFns;

verus! {

/// The pieces of `s` delimited by `sep`. The empty sequence yields one empty
/// piece, and every occurrence of `sep` ends the current piece and starts a
/// new one, so the result always holds one piece more than `s` holds
/// separators.
pub open spec fn split_on(s: Seq<char>, sep: char) -> Seq<Seq<char>>
    decreases s.len(),
{
    if s.len() == 0 {
        seq![Seq::<char>::empty()]
    } else if s.last() == sep {
        split_on(s.drop_last(), sep).push(Seq::<char>::empty())
    } else {
        let r = split_on(s.drop_last(), sep);
        r.update(r.len() - 1, r.last().push(s.last()))
    }
}

/// The pieces joined back, with `sep` between neighbours and nowhere else.
pub open spec fn join_with(parts: Seq<Seq<char>>, sep: char) -> Seq<char>
    decreases parts.len(),
{
    if parts.len() == 0 {
        Seq::<char>::empty()
    } else if parts.len() == 1 {
        parts[0]
    } else {
        join_with(parts.drop_last(), sep).push(sep) + parts.last()
    }
}

/// A split always yields at least one piece.
pub proof fn lemma_split_len_pos(s: Seq<char>, sep: char)
    ensures
        split_on(s, sep).len() >= 1,
    decreases s.len(),
{
    if s.len() > 0 {
        lemma_split_len_pos(s.drop_last(), sep);
    }
}

/// Appending one separator to the text appends one empty piece to the split.
pub proof fn lemma_split_sep(x: Seq<char>, sep: char)
    ensures
        split_on(x + seq![sep], sep) == split_on(x, sep).push(Seq::<char>::empty()),
{
    let s = x + seq![sep];
    assert(s.last() == sep);
    assert(s.drop_last() =~= x);
}

/// Appending separator-free text to the text extends the final piece of the
/// split by that text and leaves every other piece as it was.
pub proof fn lemma_split_extend(x: Seq<char>, t: Seq<char>, sep: char)
    requires
        !t.contains(sep),
    ensures
        split_on(x + t, sep) == split_on(x, sep).update(
            split_on(x, sep).len() - 1,
            split_on(x, sep).last() + t,
        ),
    decreases t.len(),
{
    lemma_split_len_pos(x, sep);
    let r = split_on(x, sep);
    if t.len() == 0 {
        assert(x + t =~= x);
        assert(r.last() + t =~= r.last());
        assert(r.update(r.len() - 1, r.last() + t) =~~= r);
    } else {
        let t0 = t.drop_last();
        let c = t.last();
        assert(forall|i: int| 0 <= i < t.len() ==> t[i] != sep);
        assert(forall|i: int| 0 <= i < t0.len() ==> t0[i] == t[i]);
        assert(!t0.contains(sep));
        assert(c != sep);
        lemma_split_extend(x, t0, sep);
        let s = x + t;
        assert(s.len() > 0);
        assert(s.last() == c);
        assert(s.drop_last() =~= x + t0);
        let r1 = split_on(x + t0, sep);
        assert(r1 == r.update(r.len() - 1, r.last() + t0));
        assert(r1.len() == r.len());
        assert(r1.last() == r.last() + t0);
        assert(split_on(s, sep) == r1.update(r1.len() - 1, r1.last().push(c)));
        assert(r.last() + t0 + seq![c] =~= r.last() + t);
        assert(r1.last().push(c) =~= r.last() + t);
        assert(r1.update(r1.len() - 1, r1.last().push(c)) =~~= r.update(
            r.len() - 1,
            r.last() + t,
        ));
    }
}

/// Splitting separator-free text gives that text back as the single piece.
pub proof fn lemma_split_no_sep(t: Seq<char>, sep: char)
    requires
        !t.contains(sep),
    ensures
        split_on(t, sep) == seq![t],
{
    lemma_split_extend(Seq::<char>::empty(), t, sep);
    assert(Seq::<char>::empty() + t =~= t);
    let r0 = split_on(Seq::<char>::empty(), sep);
    assert(r0 =~~= seq![Seq::<char>::empty()]);
    assert(Seq::<char>::empty() + t =~= t);
    assert(split_on(t, sep) =~~= seq![t]);
}

/// Joining pieces that are free of the separator and splitting the result
/// gives the pieces back exactly: splitting is a left inverse of joining.
pub proof fn lemma_join_then_split(parts: Seq<Seq<char>>, sep: char)
    requires
        parts.len() >= 1,
        forall|i: int| 0 <= i < parts.len() ==> !(#[trigger] parts[i]).contains(sep),
    ensures
        split_on(join_with(parts, sep), sep) == parts,
    decreases parts.len(),
{
    if parts.len() == 1 {
        lemma_split_no_sep(parts[0], sep);
        assert(join_with(parts, sep) == parts[0]);
        assert(seq![parts[0]] =~~= parts);
    } else {
        let init = parts.drop_last();
        let lastp = parts.last();
        assert(forall|i: int| 0 <= i < init.len() ==> init[i] == parts[i]);
        lemma_join_then_split(init, sep);
        let j = join_with(init, sep);
        assert(join_with(parts, sep) == j.push(sep) + lastp);
        assert(j.push(sep) =~= j + seq![sep]);
        assert(join_with(parts, sep) =~= (j + seq![sep]) + lastp);
        lemma_split_sep(j, sep);
        assert(!lastp.contains(sep));
        lemma_split_extend(j + seq![sep], lastp, sep);
        let r = split_on(j + seq![sep], sep);
        assert(r == init.push(Seq::<char>::empty()));
        assert(r.len() == init.len() + 1);
        assert(r.last() =~= Seq::<char>::empty());
        assert(Seq::<char>::empty() + lastp =~= lastp);
        assert(split_on((j + seq![sep]) + lastp, sep) =~~= parts);
        assert(split_on(join_with(parts, sep), sep) == split_on((j + seq![sep]) + lastp, sep));
    }
}

/// No piece of a split contains the separator it was split on.
pub proof fn lemma_split_pieces_free_of_sep(s: Seq<char>, sep: char, i: int)
    requires
        0 <= i < split_on(s, sep).len(),
    ensures
        !split_on(s, sep)[i].contains(sep),
    decreases s.len(),
{
    if s.len() == 0 {
    } else if s.last() == sep {
        let r = split_on(s.drop_last(), sep);
        if i < r.len() {
            lemma_split_pieces_free_of_sep(s.drop_last(), sep, i);
        }
    } else {
        lemma_split_len_pos(s.drop_last(), sep);
        let r = split_on(s.drop_last(), sep);
        if i < r.len() - 1 {
            lemma_split_pieces_free_of_sep(s.drop_last(), sep, i);
        } else {
            lemma_split_pieces_free_of_sep(s.drop_last(), sep, r.len() - 1);
            let ext = r.last().push(s.last());
            assert(forall|j: int| 0 <= j < r.last().len() ==> r.last()[j] != sep);
            assert(forall|j: int| 0 <= j < ext.len() ==> ext[j] != sep);
        }
    }
}

proof fn lemma_init_contains(s: Seq<char>, c: char)
    requires
        s.len() > 0,
        s.drop_last().contains(c),
    ensures
        s.contains(c),
{
    let k = choose|k: int| 0 <= k < s.drop_last().len() && s.drop_last()[k] == c;
    assert(s[k] == c);
}

/// Every character of every piece of a split occurs in the text that was
/// split: splitting drops separators and invents nothing.
pub proof fn lemma_split_piece_chars(s: Seq<char>, sep: char, i: int, j: int)
    requires
        0 <= i < split_on(s, sep).len(),
        0 <= j < split_on(s, sep)[i].len(),
    ensures
        s.contains(split_on(s, sep)[i][j]),
    decreases s.len(),
{
    if s.len() == 0 {
    } else if s.last() == sep {
        let r = split_on(s.drop_last(), sep);
        if i < r.len() {
            lemma_split_piece_chars(s.drop_last(), sep, i, j);
            lemma_init_contains(s, split_on(s, sep)[i][j]);
        }
    } else {
        lemma_split_len_pos(s.drop_last(), sep);
        let r = split_on(s.drop_last(), sep);
        if i < r.len() - 1 {
            lemma_split_piece_chars(s.drop_last(), sep, i, j);
            lemma_init_contains(s, split_on(s, sep)[i][j]);
        } else {
            let piece = r.last().push(s.last());
            assert(split_on(s, sep)[i] == piece);
            if j < r.last().len() {
                lemma_split_piece_chars(s.drop_last(), sep, r.len() - 1, j);
                assert(piece[j] == r.last()[j]);
                lemma_init_contains(s, piece[j]);
            } else {
                assert(piece[j] == s.last());
                assert(s[s.len() - 1] == s.last());
            }
        }
    }
}

/// No line of a text holds a newline, since the lines are pieces of a split
/// on newlines: a loaded corpus can therefore always be written back as one
/// token per line.
pub proof fn lemma_lines_free_of_newline(text: Seq<char>, i: int)
    requires
        0 <= i < lines_of(text).len(),
    ensures
        !lines_of(text)[i].contains('\n'),
{
    let ps = split_on(text, '\n');
    if ps.len() > 0 && ps.last().len() == 0 {
        assert(lines_of(text)[i] == ps[i]);
    }
    lemma_split_pieces_free_of_sep(text, '\n', i);
}

/// Relies on `String::push` from std: appends exactly one character at the
/// end of the string.
#[verifier::external_body]
pub(crate) fn push_char(s: &mut String, c: char)
    ensures
        final(s)@ == old(s)@.push(c),
{
    s.push(c);
}

/// Splits `s` at every occurrence of `sep`, as `split_on` describes.
pub fn split_str(s: &str, sep: char) -> (r: Vec<String>)
    ensures
        r.deep_view() == split_on(s@, sep),
{
    let n = s.unicode_len();
    let mut done: Vec<String> = Vec::new();
    let mut cur: String = String::new();
    let mut i: usize = 0;
    proof {
        assert(s@.subrange(0, 0) =~= Seq::<char>::empty());
        assert(done.deep_view().push(cur@) =~~= split_on(s@.subrange(0, 0), sep));
    }
    while i < n
        invariant
            n == s@.len(),
            i <= n,
            done.deep_view().push(cur@) == split_on(s@.subrange(0, i as int), sep),
        decreases n - i,
    {
        let c = s.get_char(i);
        let ghost pre = s@.subrange(0, i as int);
        let ghost post = s@.subrange(0, i + 1);
        proof {
            assert(post.drop_last() =~= pre);
            assert(post.last() == c);
            lemma_split_len_pos(pre, sep);
        }
        let ghost old_done = done.deep_view();
        let ghost old_cur = cur@;
        if c == sep {
            done.push(cur);
            cur = String::new();
            proof {
                assert(done.deep_view() =~~= old_done.push(old_cur));
                assert(split_on(post, sep) == split_on(pre, sep).push(Seq::<char>::empty()));
                assert(done.deep_view().push(cur@) =~~= split_on(post, sep));
            }
        } else {
            push_char(&mut cur, c);
            proof {
                let r = split_on(pre, sep);
                assert(split_on(post, sep) == r.update(r.len() - 1, r.last().push(c)));
                assert(r == old_done.push(old_cur));
                assert(r.last() == old_cur);
                assert(r.update(r.len() - 1, old_cur.push(c)) =~~= old_done.push(old_cur.push(c)));
                assert(done.deep_view().push(cur@) =~~= split_on(post, sep));
            }
        }
        i = i + 1;
    }
    proof {
        assert(s@.subrange(0, n as int) =~= s@);
    }
    done.push(cur);
    proof {
        assert(done.deep_view() =~~= split_on(s@, sep));
    }
    done
}

/// Joins the parts with `sep` between neighbours, as `join_with` describes.
pub fn join_strs(parts: &Vec<String>, sep: char) -> (r: String)
    ensures
        r@ == join_with(parts.deep_view(), sep),
{
    let mut out = String::new();
    let mut i: usize = 0;
    proof {
        assert(parts.deep_view().subrange(0, 0) =~~= Seq::<Seq<char>>::empty());
    }
    while i < parts.len()
        invariant
            i <= parts@.len(),
            parts.deep_view().len() == parts@.len(),
            out@ == join_with(parts.deep_view().subrange(0, i as int), sep),
        decreases parts@.len() - i,
    {
        let ghost pv = parts.deep_view();
        let ghost pre = pv.subrange(0, i as int);
        let ghost post = pv.subrange(0, i + 1);
        proof {
            assert(post.drop_last() =~~= pre);
            assert(post.last() == pv[i as int]);
        }
        if i > 0 {
            push_char(&mut out, sep);
        }
        out.append(parts[i].as_str());
        proof {
            assert(pv[i as int] == parts@[i as int].deep_view());
            if i == 0 {
                assert(post.len() == 1);
                assert(out@ =~= join_with(post, sep));
            } else {
                assert(post.len() >= 2);
                assert(join_with(post, sep) == join_with(pre, sep).push(sep) + post.last());
                assert(out@ =~= join_with(pre, sep).push(sep) + post.last());
            }
        }
        i = i + 1;
    }
    proof {
        assert(parts.deep_view().subrange(0, parts@.len() as int) =~~= parts.deep_view());
    }
    out
}

/// Whether `c0` occurs anywhere in `s`.
pub fn contains_char(s: &str, c0: char) -> (r: bool)
    ensures
        r == s@.contains(c0),
{
    let n = s.unicode_len();
    let mut i: usize = 0;
    while i < n
        invariant
            n == s@.len(),
            i <= n,
            forall|j: int| 0 <= j < i ==> s@[j] != c0,
        decreases n - i,
    {
        if s.get_char(i) == c0 {
            return true;
        }
        i = i + 1;
    }
    false
}

/// The blank characters that trimming removes from either end.
pub open spec fn is_blank(c: char) -> bool {
    c == ' ' || c == '\t' || c == '\r' || c == '\n'
}

/// `s` with every leading blank removed.
pub open spec fn trim_front(s: Seq<char>) -> Seq<char>
    decreases s.len(),
{
    if s.len() > 0 && is_blank(s[0]) {
        trim_front(s.drop_first())
    } else {
        s
    }
}

/// `s` with every trailing blank removed.
pub open spec fn trim_back(s: Seq<char>) -> Seq<char>
    decreases s.len(),
{
    if s.len() > 0 && is_blank(s.last()) {
        trim_back(s.drop_last())
    } else {
        s
    }
}

/// `s` with surrounding blanks removed from both ends.
pub open spec fn trimmed(s: Seq<char>) -> Seq<char> {
    trim_back(trim_front(s))
}

fn blank_at(s: &str, i: usize) -> (r: bool)
    requires
        i < s@.len(),
    ensures
        r == is_blank(s@[i as int]),
{
    let c = s.get_char(i);
    c == ' ' || c == '\t' || c == '\r' || c == '\n'
}

/// A fresh string holding `s` without its surrounding blanks.
pub fn trim_str(s: &str) -> (r: String)
    ensures
        r@ == trimmed(s@),
{
    let n = s.unicode_len();
    let mut a: usize = 0;
    proof {
        assert(s@.subrange(0, n as int) =~= s@);
    }
    while a < n && blank_at(s, a)
        invariant
            n == s@.len(),
            a <= n,
            trim_front(s@) == trim_front(s@.subrange(a as int, n as int)),
        decreases n - a,
    {
        proof {
            let tail = s@.subrange(a as int, n as int);
            assert(tail.len() > 0);
            assert(tail[0] == s@[a as int]);
            assert(tail.drop_first() =~= s@.subrange(a + 1, n as int));
        }
        a = a + 1;
    }
    proof {
        let tail = s@.subrange(a as int, n as int);
        if a < n {
            assert(tail[0] == s@[a as int]);
        }
        assert(trim_front(tail) == tail);
    }
    let mut b: usize = n;
    while b > a && blank_at(s, b - 1)
        invariant
            n == s@.len(),
            a <= b <= n,
            trim_front(s@) == trim_front(s@.subrange(a as int, n as int)),
            trim_front(s@.subrange(a as int, n as int)) == s@.subrange(a as int, n as int),
            trim_back(s@.subrange(a as int, n as int)) == trim_back(
                s@.subrange(a as int, b as int),
            ),
        decreases b,
    {
        proof {
            let piece = s@.subrange(a as int, b as int);
            assert(piece.len() > 0);
            assert(piece.last() == s@[b - 1]);
            assert(piece.drop_last() =~= s@.subrange(a as int, b - 1));
        }
        b = b - 1;
    }
    proof {
        let piece = s@.subrange(a as int, b as int);
        if b > a {
            assert(piece.last() == s@[b - 1]);
        }
        assert(trim_back(piece) == piece);
        assert(trim_front(s@.subrange(a as int, n as int)) == s@.subrange(a as int, n as int));
    }
    let out = s.substring_char(a, b);
    out.to_owned()
}

/// The rows of the a newline-delimited text: one per line, a trailing newline
/// closing the last row rather than opening an empty one.
pub open spec fn lines_of(text: Seq<char>) -> Seq<Seq<char>> {
    let ps = split_on(text, '\n');
    if ps.len() > 0 && ps.last().len() == 0 {
        ps.drop_last()
    } else {
        ps
    }
}

/// The rows of the text, one string per line.
pub fn split_lines(text: &str) -> (r: Vec<String>)
    ensures
        r.deep_view() == lines_of(text@),
{
    let mut rows = split_str(text, '\n');
    let ghost ps = split_on(text@, '\n');
    if rows.len() > 0 && rows[rows.len() - 1].as_str().is_empty() {
        proof {
            assert(rows.deep_view().last() == rows@[rows@.len() - 1].deep_view());
            assert(ps.last().len() == 0);
        }
        rows.pop();
        proof {
            assert(rows.deep_view() =~~= ps.drop_last());
        }
    } else {
        proof {
            if rows@.len() > 0 {
                assert(rows.deep_view().last() == rows@[rows@.len() - 1].deep_view());
            }
            assert(rows.deep_view() =~~= ps);
        }
    }
    rows
}

} // verus!
