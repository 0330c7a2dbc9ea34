//! The corpus-extraction policy: which display names are kept, how a kept
//! name is cleaned into a token, and how the display-name column is read out
//! of the tabular source text (rows separated by newlines, fields by commas,
//! the first row naming the columns).

use vstd::prelude::*;
use vstd::string::StrSliceExecFns;

use crate::text::contains_char;
use crate::text::push_char;
use crate::text::split_on;
use crate::text::split_str;
use crate::text::lines_of;
use crate::text::split_lines;
use crate::text::lemma_split_piece_chars;

verus! {

/// The characters removed from a display name when it becomes a token.
pub open spec fn is_removed(c: char) -> bool {
    c == ' ' || c == '-' || c == '\''
}

/// A display name is kept when it is 3 to 15 characters long and holds no
/// opening parenthesis (which marks a qualified entry, not a clean name).
pub open spec fn acceptable_name(s: Seq<char>) -> bool {
    3 <= s.len() <= 15 && !s.contains('(')
}

/// The characters a cleaned name keeps: everything but the removed ones.
pub open spec fn kept_char() -> spec_fn(char) -> bool {
    |c: char| !is_removed(c)
}

/// The token a kept display name becomes: the name with every space, hyphen
/// and apostrophe removed and nothing else changed.
pub open spec fn cleaned(s: Seq<char>) -> Seq<char> {
    s.filter(kept_char())
}

/// A cleaned name never holds a removed character; in particular it is free
/// of hyphens, so a passphrase built from cleaned tokens splits back into
/// its parts unambiguously.
pub proof fn lemma_cleaned_free_of_removed(s: Seq<char>)
    ensures
        forall|i: int| 0 <= i < cleaned(s).len() ==> !is_removed(#[trigger] cleaned(s)[i]),
        !cleaned(s).contains('-'),
{
    assert forall|i: int| 0 <= i < cleaned(s).len() implies !is_removed(
        #[trigger] cleaned(s)[i],
    ) by {
        s.lemma_filter_pred(kept_char(), i);
    }
    assert(is_removed('-'));
    if cleaned(s).contains('-') {
        let i = choose|i: int| 0 <= i < cleaned(s).len() && cleaned(s)[i] == '-';
        assert(!is_removed(cleaned(s)[i]));
    }
}

/// A row's value is kept when it is present and its name is acceptable.
pub open spec fn keeps(o: Option<Seq<char>>) -> bool {
    o matches Some(nm) && acceptable_name(nm)
}

/// The tokens extracted from a column of display names, one per kept value,
/// in row order.
pub open spec fn extract_spec(names: Seq<Option<Seq<char>>>) -> Seq<Seq<char>>
    decreases names.len(),
{
    if names.len() == 0 {
        Seq::<Seq<char>>::empty()
    } else {
        let rest = extract_spec(names.drop_last());
        if keeps(names.last()) {
            rest.push(cleaned(names.last()->0))
        } else {
            rest
        }
    }
}

pub open spec fn keep_pred() -> spec_fn(Option<Seq<char>>) -> bool {
    |o: Option<Seq<char>>| keeps(o)
}

pub open spec fn clean_fn() -> spec_fn(Option<Seq<char>>) -> Seq<char> {
    |o: Option<Seq<char>>| cleaned(o->0)
}

/// The extraction is exactly a filter followed by a cleaning map: a value is
/// excluded when absent, shorter than 3 or longer than 15 characters, or
/// holding `(`; every other value appears exactly once, cleaned, in its
/// source row order.
pub proof fn lemma_extract_is_filter_map(names: Seq<Option<Seq<char>>>)
    ensures
        extract_spec(names) == names.filter(keep_pred()).map_values(clean_fn()),
    decreases names.len(),
{
    reveal(Seq::filter);
    if names.len() == 0 {
        assert(extract_spec(names) =~~= names.filter(keep_pred()).map_values(clean_fn()));
    } else {
        let init = names.drop_last();
        lemma_extract_is_filter_map(init);
        if keeps(names.last()) {
            assert(names.filter(keep_pred()) == init.filter(keep_pred()).push(names.last()));
            assert(names.filter(keep_pred()).map_values(clean_fn()) =~~= init.filter(
                keep_pred(),
            ).map_values(clean_fn()).push(cleaned(names.last()->0)));
        } else {
            assert(names.filter(keep_pred()) == init.filter(keep_pred()));
        }
        assert(extract_spec(names) =~~= names.filter(keep_pred()).map_values(clean_fn()));
    }
}

/// The cleaned name, built character by character.
pub fn clean_name(name: &str) -> (r: String)
    ensures
        r@ == cleaned(name@),
{
    let n = name.unicode_len();
    let mut out = String::new();
    let mut i: usize = 0;
    proof {
        reveal(Seq::filter);
        assert(name@.subrange(0, 0) =~= Seq::<char>::empty());
        assert(out@ =~= cleaned(name@.subrange(0, 0)));
    }
    while i < n
        invariant
            n == name@.len(),
            i <= n,
            out@ == cleaned(name@.subrange(0, i as int)),
        decreases n - i,
    {
        let c = name.get_char(i);
        let ghost pre = name@.subrange(0, i as int);
        let ghost post = name@.subrange(0, i + 1);
        proof {
            reveal(Seq::filter);
            assert(post.drop_last() =~= pre);
            assert(post.last() == c);
        }
        if !(c == ' ' || c == '-' || c == '\'') {
            push_char(&mut out, c);
        }
        proof {
            reveal(Seq::filter);
            assert(out@ =~= cleaned(post));
        }
        i = i + 1;
    }
    proof {
        assert(name@.subrange(0, n as int) =~= name@);
    }
    out
}

/// The token for one display name: `Some` of the cleaned name exactly when
/// the name is acceptable, `None` otherwise.
pub fn token_of_name(name: &str) -> (r: Option<String>)
    ensures
        r is Some <==> acceptable_name(name@),
        r matches Some(t) ==> t@ == cleaned(name@),
{
    let n = name.unicode_len();
    if n < 3 || n > 15 || contains_char(name, '(') {
        None
    } else {
        Some(clean_name(name))
    }
}

/// The tokens for a whole column of display names, in row order.
pub fn extract_tokens(names: &Vec<Option<String>>) -> (r: Vec<String>)
    ensures
        r.deep_view() == extract_spec(names.deep_view()),
{
    let mut out: Vec<String> = Vec::new();
    let mut i: usize = 0;
    proof {
        assert(names.deep_view().subrange(0, 0) =~~= Seq::<Option<Seq<char>>>::empty());
        assert(out.deep_view() =~~= extract_spec(names.deep_view().subrange(0, 0)));
    }
    while i < names.len()
        invariant
            i <= names@.len(),
            names.deep_view().len() == names@.len(),
            out.deep_view() == extract_spec(names.deep_view().subrange(0, i as int)),
        decreases names@.len() - i,
    {
        let ghost nv = names.deep_view();
        let ghost pre = nv.subrange(0, i as int);
        let ghost post = nv.subrange(0, i + 1);
        proof {
            assert(post.drop_last() =~~= pre);
            assert(post.last() == nv[i as int]);
            assert(nv[i as int] == names@[i as int].deep_view());
        }
        let ghost old_out = out.deep_view();
        if let Some(nm) = &names[i] {
            if let Some(tok) = token_of_name(nm.as_str()) {
                out.push(tok);
                proof {
                    assert(keeps(post.last()));
                    assert(out.deep_view() =~~= old_out.push(cleaned(post.last()->0)));
                }
            } else {
                proof {
                    assert(!keeps(post.last()));
                }
            }
        } else {
            proof {
                assert(post.last() is None);
                assert(!keeps(post.last()));
            }
        }
        proof {
            assert(out.deep_view() =~~= extract_spec(post));
        }
        i = i + 1;
    }
    proof {
        assert(names.deep_view().subrange(0, names@.len() as int) =~~= names.deep_view());
    }
    out
}

/// The fields of one row, separated by commas.
pub open spec fn fields_of(row: Seq<char>) -> Seq<Seq<char>> {
    split_on(row, ',')
}

/// The position of the first field equal to `name`, if any.
pub open spec fn first_index_of(fields: Seq<Seq<char>>, name: Seq<char>) -> Option<int>
    decreases fields.len(),
{
    if fields.len() == 0 {
        None
    } else if fields[0] == name {
        Some(0int)
    } else {
        match first_index_of(fields.drop_first(), name) {
            Some(i) => Some(i + 1),
            None => None,
        }
    }
}

/// The value of row `row` in column `j`: absent when the row has no field `j`.
pub open spec fn cell(row: Seq<char>, j: int) -> Option<Seq<char>> {
    if 0 <= j < fields_of(row).len() {
        Some(fields_of(row)[j])
    } else {
        None
    }
}

/// The values of the column named `column`, one per data row: `None` when the
/// text has no rows or no header field equals `column`.
pub open spec fn column_of(text: Seq<char>, column: Seq<char>) -> Option<Seq<Option<Seq<char>>>> {
    let rows = lines_of(text);
    if rows.len() == 0 {
        None
    } else {
        match first_index_of(fields_of(rows[0]), column) {
            None => None,
            Some(j) => Some(Seq::new((rows.len() - 1) as nat, |i: int| cell(rows[i + 1], j))),
        }
    }
}

/// The position of the first field of `fields` equal to `name`, if any.
fn find_field(fields: &Vec<String>, name: &str) -> (r: Option<usize>)
    ensures
        match r {
            Some(j) => first_index_of(fields.deep_view(), name@) == Some(j as int),
            None => first_index_of(fields.deep_view(), name@) is None,
        },
{
    let ghost fv = fields.deep_view();
    let mut i: usize = 0;
    proof {
        assert(fv.skip(0) =~~= fv);
    }
    while i < fields.len()
        invariant
            i <= fields@.len(),
            fv == fields.deep_view(),
            fv.len() == fields@.len(),
            first_index_of(fv, name@) == match first_index_of(fv.skip(i as int), name@) {
                Some(k) => Some(k + i),
                None => None::<int>,
            },
        decreases fields@.len() - i,
    {
        let ghost tail = fv.skip(i as int);
        proof {
            assert(tail.len() > 0);
            assert(tail[0] == fv[i as int]);
            assert(fv[i as int] == fields@[i as int].deep_view());
            assert(tail.drop_first() =~~= fv.skip(i + 1));
        }
        let name_owned: String = name.to_owned();
        if fields[i].eq(&name_owned) {
            proof {
                assert(tail[0] == name@);
                assert(first_index_of(tail, name@) == Some(0int));
            }
            return Some(i);
        }
        proof {
            assert(tail[0] != name@);
        }
        i = i + 1;
    }
    proof {
        assert(fv.skip(fv.len() as int).len() == 0);
    }
    None
}

/// The error of the extraction step that the policy itself can raise: the
/// source text has no header field naming the display-name column.
#[derive(Clone, Copy, PartialEq, Eq, Structural, Debug)]
pub enum ExtractionError {
    MissingColumn,
}

/// The values of the named column, one per data row, or `None` when no
/// header field matches.
pub fn column_values(text: &str, column: &str) -> (r: Option<Vec<Option<String>>>)
    ensures
        r is Some <==> column_of(text@, column@) is Some,
        r matches Some(v) ==> v.deep_view() == column_of(text@, column@)->0,
{
    let rows = split_lines(text);
    let ghost rv = lines_of(text@);
    if rows.len() == 0 {
        return None;
    }
    proof {
        assert(rv[0] == rows@[0].deep_view());
    }
    let header = split_str(rows[0].as_str(), ',');
    let j = match find_field(&header, column) {
        None => {
            return None;
        },
        Some(j) => j,
    };
    let mut out: Vec<Option<String>> = Vec::new();
    let mut i: usize = 1;
    let ghost col = column_of(text@, column@)->0;
    proof {
        assert(col =~~= Seq::new((rv.len() - 1) as nat, |k: int| cell(rv[k + 1], j as int)));
        assert(out.deep_view() =~~= col.subrange(0, 0));
    }
    while i < rows.len()
        invariant
            1 <= i <= rows@.len(),
            rv == rows.deep_view(),
            rv.len() == rows@.len(),
            col.len() == rv.len() - 1,
            forall|k: int| 0 <= k < col.len() ==> col[k] == cell(rv[k + 1], j as int),
            out.deep_view() == col.subrange(0, i - 1),
        decreases rows@.len() - i,
    {
        proof {
            assert(rv[i as int] == rows@[i as int].deep_view());
        }
        let fields = split_str(rows[i].as_str(), ',');
        let ghost old_out = out.deep_view();
        if j < fields.len() {
            proof {
                assert(fields.deep_view()[j as int] == fields@[j as int].deep_view());
                assert(cell(rv[i as int], j as int) == Some(fields.deep_view()[j as int]));
            }
            out.push(Some(fields[j].clone()));
        } else {
            proof {
                assert(cell(rv[i as int], j as int) is None);
            }
            out.push(None);
        }
        proof {
            assert(out.deep_view() =~~= old_out.push(cell(rv[i as int], j as int)));
            assert(out.deep_view() =~~= col.subrange(0, i as int));
        }
        i = i + 1;
    }
    proof {
        assert(col.subrange(0, col.len() as int) =~~= col);
    }
    Some(out)
}

/// Every character of a cleaned name occurs in the name: cleaning removes
/// characters and adds none.
pub proof fn lemma_cleaned_chars_from_source(s: Seq<char>, i: int)
    requires
        0 <= i < cleaned(s).len(),
    ensures
        s.contains(cleaned(s)[i]),
    decreases s.len(),
{
    reveal(Seq::filter);
    if s.len() == 0 {
    } else {
        let sub = cleaned(s.drop_last());
        let c = cleaned(s)[i];
        if kept_char()(s.last()) {
            assert(cleaned(s) == sub.push(s.last()));
            if i < sub.len() {
                lemma_cleaned_chars_from_source(s.drop_last(), i);
                assert(sub[i] == c);
                let k = choose|k: int| 0 <= k < s.drop_last().len() && s.drop_last()[k] == c;
                assert(s[k] == c);
            } else {
                assert(c == s.last());
                assert(s[s.len() - 1] == s.last());
            }
        } else {
            assert(cleaned(s) == sub);
            lemma_cleaned_chars_from_source(s.drop_last(), i);
            let k = choose|k: int| 0 <= k < s.drop_last().len() && s.drop_last()[k] == c;
            assert(s[k] == c);
        }
    }
}

/// Each extracted token is the cleaned value of some kept row of the column.
pub proof fn lemma_extract_element_source(names: Seq<Option<Seq<char>>>, t: int)
    requires
        0 <= t < extract_spec(names).len(),
    ensures
        exists|k: int|
            {
                &&& 0 <= k < names.len()
                &&& keeps(#[trigger] names[k])
                &&& extract_spec(names)[t] == cleaned(names[k]->0)
            },
    decreases names.len(),
{
    if names.len() == 0 {
    } else {
        let rest = extract_spec(names.drop_last());
        if keeps(names.last()) && t == rest.len() {
            assert(extract_spec(names)[t] == cleaned(names.last()->0));
            assert(names[names.len() - 1] == names.last());
            assert(keeps(names[names.len() - 1]) && extract_spec(names)[t] == cleaned(
                names[names.len() - 1]->0,
            ));
        } else {
            assert(extract_spec(names)[t] == rest[t]);
            lemma_extract_element_source(names.drop_last(), t);
            let k = choose|k: int|
                {
                    &&& 0 <= k < names.drop_last().len()
                    &&& keeps(#[trigger] names.drop_last()[k])
                    &&& rest[t] == cleaned(names.drop_last()[k]->0)
                };
            assert(names[k] == names.drop_last()[k]);
            assert(keeps(names[k]) && extract_spec(names)[t] == cleaned(names[k]->0));
        }
    }
}

/// No extracted token holds a newline: its characters come from a cell of a
/// row, and no row of the source text holds one. An extracted corpus can
/// therefore always be written one token per line and loaded back unchanged.
pub proof fn lemma_extracted_tokens_line_safe(text: Seq<char>, column: Seq<char>)
    requires
        column_of(text, column) is Some,
    ensures
        forall|t: int|
            0 <= t < extract_spec(column_of(text, column)->0).len() ==> !(
            #[trigger] extract_spec(column_of(text, column)->0)[t]).contains('\n'),
{
    let names = column_of(text, column)->0;
    let rows = lines_of(text);
    let toks = extract_spec(names);
    assert forall|t: int| 0 <= t < toks.len() implies !(#[trigger] toks[t]).contains('\n') by {
        lemma_extract_element_source(names, t);
        let k = choose|k: int|
            {
                &&& 0 <= k < names.len()
                &&& keeps(#[trigger] names[k])
                &&& toks[t] == cleaned(names[k]->0)
            };
        let j = first_index_of(fields_of(rows[0]), column)->0;
        assert(names[k] == cell(rows[k + 1], j));
        let row = rows[k + 1];
        assert(names[k]->0 == fields_of(row)[j]);
        if toks[t].contains('\n') {
            let a = choose|a: int| 0 <= a < toks[t].len() && toks[t][a] == '\n';
            lemma_cleaned_chars_from_source(names[k]->0, a);
            let b = choose|b: int| 0 <= b < (names[k]->0).len() && (names[k]->0)[b] == '\n';
            lemma_split_piece_chars(row, ',', j, b);
            crate::text::lemma_lines_free_of_newline(text, k + 1);
            assert(false);
        }
    }
}

/// The whole extraction policy on the source text: the display-name column
/// read out and every kept value cleaned into a token, in row order. Fails
/// exactly when the text has no rows or no header field names the column.
pub fn extract_corpus(text: &str, column: &str) -> (r: Result<Vec<String>, ExtractionError>)
    ensures
        r is Ok <==> column_of(text@, column@) is Some,
        r matches Ok(v) ==> v.deep_view() == extract_spec(column_of(text@, column@)->0),
        r matches Err(e) ==> e == ExtractionError::MissingColumn,
{
    match column_values(text, column) {
        None => Err(ExtractionError::MissingColumn),
        Some(vals) => Ok(extract_tokens(&vals)),
    }
}

} // verus!
