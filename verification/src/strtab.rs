//! Splitting and joining text on a separator: the string pools of the block
//! format store every interned string joined by one separator line, and the
//! header column stores `key:value` lines.
use vstd::prelude::*;

use crate::spec_join;
use crate::spec_split;
use crate::spec_split_headers;
use crate::spec_split_once;

verus! {

/// A split always yields at least one piece.
pub proof fn lemma_split_len(text: Seq<char>, sep: char)
    ensures
        spec_split(text, sep).len() >= 1,
    decreases text.len(),
{
    if text.len() == 0 {
    } else if text[0] == sep {
        lemma_split_len(text.skip(1), sep)
    } else {
        lemma_split_len(text.skip(1), sep)
    }
}

/// A text without the separator is a single piece.
pub proof fn lemma_split_no_sep(text: Seq<char>, sep: char)
    requires
        !text.contains(sep),
    ensures
        spec_split(text, sep) == seq![text],
    decreases text.len(),
{
    if text.len() == 0 {
        assert(text =~= Seq::<char>::empty());
        assert(spec_split(text, sep) =~= seq![text]);
    } else {
        assert(text[0] != sep);
        assert(!text.skip(1).contains(sep)) by {
            if text.skip(1).contains(sep) {
                let i = choose|i: int| 0 <= i < text.skip(1).len() && text.skip(1)[i] == sep;
                assert(text[i + 1] == sep);
            }
        }
        lemma_split_no_sep(text.skip(1), sep);
        assert(spec_split(text, sep) =~= seq![text]) by {
            assert(seq![text[0]] + text.skip(1) =~= text);
        }
    }
}

/// Splitting `a ++ sep ++ t` cuts exactly at that separator when `a` holds
/// none.
pub proof fn lemma_split_at_sep(a: Seq<char>, t: Seq<char>, sep: char)
    requires
        !a.contains(sep),
    ensures
        spec_split(a + seq![sep] + t, sep) == seq![a] + spec_split(t, sep),
    decreases a.len(),
{
    let w = a + seq![sep] + t;
    if a.len() == 0 {
        assert(a =~= Seq::<char>::empty());
        assert(w.len() >= 1);
        assert(w[0] == sep);
        assert(w.skip(1) =~= t);
        lemma_split_len(t, sep);
        assert(spec_split(w, sep) =~= seq![a] + spec_split(t, sep));
    } else {
        assert(w[0] == a[0]);
        assert(a[0] != sep);
        let a1 = a.skip(1);
        assert(!a1.contains(sep)) by {
            if a1.contains(sep) {
                let i = choose|i: int| 0 <= i < a1.len() && a1[i] == sep;
                assert(a[i + 1] == sep);
            }
        }
        lemma_split_at_sep(a1, t, sep);
        assert(w.skip(1) =~= a1 + seq![sep] + t);
        let r = spec_split(w.skip(1), sep);
        assert(r == seq![a1] + spec_split(t, sep));
        lemma_split_len(t, sep);
        assert(r[0] == a1);
        assert(seq![w[0]] + r[0] =~= a);
        assert(r.skip(1) =~= spec_split(t, sep));
        assert(spec_split(w, sep) =~= seq![a] + spec_split(t, sep));
    }
}

/// Joining pieces that hold no separator and splitting again returns the
/// pieces: the law the string pools of the block format rest on.
pub proof fn lemma_split_join(pieces: Seq<Seq<char>>, sep: char)
    requires
        pieces.len() >= 1,
        forall|i: int| 0 <= i < pieces.len() ==> !#[trigger] pieces[i].contains(sep),
    ensures
        spec_split(spec_join(pieces, sep), sep) == pieces,
    decreases pieces.len(),
{
    if pieces.len() == 1 {
        lemma_split_no_sep(pieces[0], sep);
        assert(spec_split(spec_join(pieces, sep), sep) =~= pieces);
    } else {
        lemma_split_join(pieces.skip(1), sep);
        lemma_split_at_sep(pieces[0], spec_join(pieces.skip(1), sep), sep);
        assert(spec_split(spec_join(pieces, sep), sep) =~= pieces);
    }
}

/// Appending one more piece to a non-empty join adds one separator and the
/// piece.
pub proof fn lemma_join_push(pieces: Seq<Seq<char>>, x: Seq<char>, sep: char)
    requires
        pieces.len() >= 1,
    ensures
        spec_join(pieces.push(x), sep) == spec_join(pieces, sep) + seq![sep] + x,
    decreases pieces.len(),
{
    if pieces.len() == 1 {
        assert(pieces.push(x).skip(1) =~= seq![x]);
        assert(spec_join(seq![x], sep) == x);
        assert(spec_join(pieces.push(x), sep) =~= pieces[0] + seq![sep] + x);
    } else {
        assert(pieces.push(x).skip(1) =~= pieces.skip(1).push(x));
        lemma_join_push(pieces.skip(1), x, sep);
        assert(spec_join(pieces.push(x), sep) =~= spec_join(pieces, sep) + seq![sep] + x);
    }
}

/// What remains to be split: the current piece glued onto the first piece of
/// the split of the rest.
spec fn glue(cur: Seq<char>, r: Seq<Seq<char>>) -> Seq<Seq<char>> {
    seq![cur + r[0]] + r.skip(1)
}

/// Splits `s` on `sep` into its pieces, in order.
pub fn split_string(s: &str, sep: char) -> (r: Vec<String>)
    ensures
        r.deep_view() == spec_split(s@, sep),
{
    let n = s.unicode_len();
    let mut out: Vec<String> = Vec::new();
    let mut piece_start: usize = 0;
    let mut i: usize = 0;
    proof {
        lemma_split_len(s@, sep);
        assert(out.deep_view() + glue(s@.subrange(0, 0), spec_split(s@.skip(0), sep)) =~= spec_split(
            s@,
            sep,
        )) by {
            assert(s@.subrange(0, 0) + spec_split(s@, sep)[0] =~= spec_split(s@, sep)[0]);
            assert(s@.skip(0) =~= s@);
        }
    }
    while i < n
        invariant
            piece_start <= i <= n == s@.len(),
            out.deep_view() + glue(
                s@.subrange(piece_start as int, i as int),
                spec_split(s@.skip(i as int), sep),
            ) == spec_split(s@, sep),
        decreases n - i,
    {
        let c = s.get_char(i);
        proof {
            assert(s@.skip(i as int)[0] == s@[i as int]);
            assert(s@.skip(i as int).skip(1) =~= s@.skip(i + 1));
            lemma_split_len(s@.skip(i + 1), sep);
        }
        if c == sep {
            let piece = s.substring_char(piece_start, i);
            let ghost prev = out.deep_view();
            out.push(piece.to_owned());
            proof {
                let cur = s@.subrange(piece_start as int, i as int);
                let r2 = spec_split(s@.skip(i + 1), sep);
                assert(spec_split(s@.skip(i as int), sep) == seq![Seq::<char>::empty()] + r2);
                assert(out.deep_view() =~= prev + seq![cur]);
                assert(glue(cur, seq![Seq::<char>::empty()] + r2)[0] =~= cur);
                assert(prev + glue(cur, seq![Seq::<char>::empty()] + r2) =~= out.deep_view()
                    + glue(s@.subrange(i + 1, i + 1), r2)) by {
                    assert(glue(cur, seq![Seq::<char>::empty()] + r2).skip(1) =~= r2);
                    assert(s@.subrange(i + 1, i + 1) + r2[0] =~= r2[0]);
                    assert(glue(s@.subrange(i + 1, i + 1), r2).skip(1) =~= r2.skip(1));
                    assert(seq![r2[0]] + r2.skip(1) =~= r2);
                }
            }
            piece_start = i + 1;
        } else {
            proof {
                let cur = s@.subrange(piece_start as int, i as int);
                let r2 = spec_split(s@.skip(i + 1), sep);
                let r = spec_split(s@.skip(i as int), sep);
                assert(r == seq![seq![s@[i as int]] + r2[0]] + r2.skip(1));
                assert(cur + r[0] =~= s@.subrange(piece_start as int, i + 1) + r2[0]);
                assert(glue(cur, r) =~= glue(s@.subrange(piece_start as int, i + 1), r2)) by {
                    assert(r.skip(1) =~= r2.skip(1));
                }
            }
        }
        i = i + 1;
    }
    let piece = s.substring_char(piece_start, n);
    let ghost prev = out.deep_view();
    out.push(piece.to_owned());
    proof {
        let cur = s@.subrange(piece_start as int, n as int);
        assert(s@.skip(n as int) =~= Seq::<char>::empty());
        let r = spec_split(s@.skip(n as int), sep);
        assert(r == seq![Seq::<char>::empty()]);
        assert(glue(cur, r) =~= seq![cur]);
        assert(out.deep_view() =~= prev + seq![cur]);
        assert(out.deep_view() =~= spec_split(s@, sep));
    }
    out
}

/// Joins the pieces with newlines: the form a string pool takes before
/// compression.
pub fn join_lines(pieces: &Vec<String>) -> (r: String)
    requires
        pieces@.len() >= 1,
    ensures
        r@ == spec_join(pieces.deep_view(), '\n'),
{
    proof {
        reveal_strlit("\n");
    }
    let mut out: String = pieces[0].clone();
    let mut i: usize = 1;
    while i < pieces.len()
        invariant
            1 <= i <= pieces@.len(),
            pieces@.len() >= 1,
            out@ == spec_join(pieces.deep_view().take(i as int), '\n'),
            "\n"@ == seq!['\n'],
        decreases pieces@.len() - i,
    {
        out.append("\n");
        out.append(pieces[i].as_str());
        proof {
            let dv = pieces.deep_view();
            assert(dv.take(i + 1) =~= dv.take(i as int).push(dv[i as int]));
            lemma_join_push(dv.take(i as int), dv[i as int], '\n');
        }
        i = i + 1;
    }
    proof {
        assert(pieces.deep_view().take(pieces@.len() as int) =~= pieces.deep_view());
    }
    out
}

/// Whether `c` occurs in `s`.
pub fn str_has_char(s: &str, c: char) -> (r: bool)
    ensures
        r == s@.contains(c),
{
    let n = s.unicode_len();
    let mut i: usize = 0;
    while i < n
        invariant
            i <= n,
            n == s@.len(),
            forall|j: int| 0 <= j < i ==> s@[j] != c,
        decreases n - i,
    {
        if s.get_char(i) == c {
            return true;
        }
        i = i + 1;
    }
    proof {
        if s@.contains(c) {
            let j = choose|j: int| 0 <= j < s@.len() && s@[j] == c;
            assert(s@[j] != c);
        }
    }
    false
}

/// No piece of a split contains the separator.
pub proof fn lemma_split_pieces_clean(text: Seq<char>, sep: char)
    ensures
        forall|i: int|
            0 <= i < spec_split(text, sep).len() ==> !(#[trigger] spec_split(text, sep)[i]).contains(sep),
    decreases text.len(),
{
    let r = spec_split(text, sep);
    if text.len() == 0 {
        assert forall|i: int| 0 <= i < r.len() implies !(#[trigger] r[i]).contains(sep) by {
            assert(r[i] =~= Seq::<char>::empty());
        }
    } else if text[0] == sep {
        lemma_split_pieces_clean(text.skip(1), sep);
        assert forall|i: int| 0 <= i < r.len() implies !(#[trigger] r[i]).contains(sep) by {
            if i == 0 {
                assert(r[0] =~= Seq::<char>::empty());
            } else {
                assert(r[i] == spec_split(text.skip(1), sep)[i - 1]);
            }
        }
    } else {
        lemma_split_pieces_clean(text.skip(1), sep);
        let r2 = spec_split(text.skip(1), sep);
        lemma_split_len(text.skip(1), sep);
        assert forall|i: int| 0 <= i < r.len() implies !(#[trigger] r[i]).contains(sep) by {
            if i == 0 {
                assert(!r2[0].contains(sep));
                assert(r[0] == seq![text[0]] + r2[0]);
                if r[0].contains(sep) {
                    let j = choose|j: int| 0 <= j < r[0].len() && r[0][j] == sep;
                    if j == 0 {
                        assert(text[0] == sep);
                    } else {
                        assert(r2[0][j - 1] == sep);
                    }
                }
            } else {
                assert(r[i] == r2.skip(1)[i - 1]);
                assert(r2.skip(1)[i - 1] == r2[i]);
            }
        }
    }
}

/// The parts a line splits into keep every character of the line.
pub proof fn lemma_split_once_clean(line: Seq<char>, sep: char, c: char)
    requires
        !line.contains(c),
        spec_split_once(line, sep) is Some,
    ensures
        !(spec_split_once(line, sep)->Some_0).0.contains(c),
        !(spec_split_once(line, sep)->Some_0).1.contains(c),
    decreases line.len(),
{
    assert(forall|j: int| 0 <= j < line.skip(1).len() ==> line.skip(1)[j] == line[j + 1]);
    assert(!line.skip(1).contains(c)) by {
        if line.skip(1).contains(c) {
            let j = choose|j: int| 0 <= j < line.skip(1).len() && line.skip(1)[j] == c;
            assert(line[j + 1] == c);
        }
    }
    if line.len() == 0 {
    } else if line[0] == sep {
        assert((spec_split_once(line, sep)->Some_0).0 =~= Seq::<char>::empty());
    } else {
        match spec_split_once(line.skip(1), sep) {
            None => {},
            Some((k, v)) => {
                lemma_split_once_clean(line.skip(1), sep, c);
                let k0 = (spec_split_once(line, sep)->Some_0).0;
                assert(k0 == seq![line[0]] + k);
                if k0.contains(c) {
                    let j = choose|j: int| 0 <= j < k0.len() && k0[j] == c;
                    if j == 0 {
                        assert(line[0] == c);
                        assert(line.contains(c));
                    } else {
                        assert(k[j - 1] == c);
                    }
                }
            },
        }
    }
}

/// Character-for-character string equality.
pub fn str_eq(a: &str, b: &str) -> (r: bool)
    ensures
        r == (a@ == b@),
{
    let na = a.unicode_len();
    let nb = b.unicode_len();
    if na != nb {
        return false;
    }
    let mut i: usize = 0;
    while i < na
        invariant
            i <= na == a@.len(),
            na == nb == b@.len(),
            forall|j: int| 0 <= j < i ==> a@[j] == b@[j],
        decreases na - i,
    {
        if a.get_char(i) != b.get_char(i) {
            return false;
        }
        i = i + 1;
    }
    proof {
        assert(a@ =~= b@);
    }
    true
}

/// Splits one `key:value` line at its first colon.
fn split_line_once(line: &str) -> (r: Option<(String, String)>)
    ensures
        match r {
            Some((k, v)) => spec_split_once(line@, ':') == Some((k@, v@)),
            None => spec_split_once(line@, ':') is None,
        },
{
    let n = line.unicode_len();
    let mut i: usize = 0;
    while i < n
        invariant
            i <= n == line@.len(),
            forall|j: int| 0 <= j < i ==> line@[j] != ':',
        decreases n - i,
    {
        if line.get_char(i) == ':' {
            let k = line.substring_char(0, i);
            let v = line.substring_char(i + 1, n);
            proof {
                lemma_split_once_at(line@, ':', i as int);
            }
            return Some((k.to_owned(), v.to_owned()));
        }
        i = i + 1;
    }
    proof {
        lemma_split_once_none(line@, ':');
    }
    None
}

/// When position `i` holds the first `sep`, the split is exactly there.
proof fn lemma_split_once_at(line: Seq<char>, sep: char, i: int)
    requires
        0 <= i < line.len(),
        line[i] == sep,
        forall|j: int| 0 <= j < i ==> line[j] != sep,
    ensures
        spec_split_once(line, sep) == Some((line.take(i), line.skip(i + 1))),
    decreases i,
{
    if i == 0 {
        assert(line.take(0) =~= Seq::<char>::empty());
        assert(spec_split_once(line, sep) == Some((line.take(0), line.skip(1))));
    } else {
        assert(line[0] != sep);
        lemma_split_once_at(line.skip(1), sep, i - 1);
        assert(line.skip(1).take(i - 1) =~= line.take(i).skip(1));
        assert(seq![line[0]] + line.take(i).skip(1) =~= line.take(i));
        assert(line.skip(1).skip(i) =~= line.skip(i + 1));
    }
}

/// A line without the separator does not split.
proof fn lemma_split_once_none(line: Seq<char>, sep: char)
    requires
        forall|j: int| 0 <= j < line.len() ==> line[j] != sep,
    ensures
        spec_split_once(line, sep) is None,
    decreases line.len(),
{
    if line.len() > 0 {
        lemma_split_once_none(line.skip(1), sep);
    }
}

/// Splits flattened header text into its `key:value` pairs; lines without a
/// colon are dropped.
pub fn split_headers(text: &str) -> (r: Vec<(String, String)>)
    ensures
        r.deep_view() == spec_split_headers(text@),
{
    let lines = split_string(text, '\n');
    let mut out: Vec<(String, String)> = Vec::new();
    let mut i: usize = 0;
    proof {
        reveal(Seq::filter);
        assert(lines.deep_view().take(0int) =~= Seq::<Seq<char>>::empty());
        assert(headers_of_lines(lines.deep_view().take(0int)) =~= Seq::<(
            Seq<char>,
            Seq<char>,
        )>::empty());
        assert(out.deep_view() =~= Seq::<(Seq<char>, Seq<char>)>::empty());
    }
    while i < lines.len()
        invariant
            i <= lines@.len(),
            lines.deep_view() == spec_split(text@, '\n'),
            out.deep_view() == headers_of_lines(lines.deep_view().take(i as int)),
        decreases lines@.len() - i,
    {
        let ghost prev = out.deep_view();
        match split_line_once(lines[i].as_str()) {
            Some(pair) => {
                out.push(pair);
            },
            None => {},
        }
        proof {
            let dv = lines.deep_view();
            assert(dv.take(i + 1) =~= dv.take(i as int).push(dv[i as int]));
            lemma_headers_push(dv.take(i as int), dv[i as int]);
            assert(out.deep_view() =~= headers_of_lines(dv.take(i + 1)));
        }
        i = i + 1;
    }
    proof {
        let dv = lines.deep_view();
        assert(dv.take(dv.len() as int) =~= dv);
        lemma_headers_take(text@, dv, dv.len() as int);
    }
    out
}

/// The pairs carried by a sequence of lines.
spec fn headers_of_lines(lines: Seq<Seq<char>>) -> Seq<(Seq<char>, Seq<char>)> {
    lines.filter(|line: Seq<char>| spec_split_once(line, ':') is Some).map_values(
        |line: Seq<char>| spec_split_once(line, ':')->Some_0,
    )
}

proof fn lemma_headers_take(text: Seq<char>, lines: Seq<Seq<char>>, n: int)
    requires
        lines == spec_split(text, '\n'),
        n == lines.len(),
    ensures
        spec_split_headers(text) == headers_of_lines(lines.take(n)),
{
    assert(lines.take(n) =~= lines);
}

proof fn lemma_headers_push(lines: Seq<Seq<char>>, x: Seq<char>)
    ensures
        spec_split_once(x, ':') is Some ==> headers_of_lines(lines.push(x)) == headers_of_lines(
            lines,
        ).push(spec_split_once(x, ':')->Some_0),
        spec_split_once(x, ':') is None ==> headers_of_lines(lines.push(x)) == headers_of_lines(
            lines,
        ),
{
    reveal(Seq::filter);
    let f = |line: Seq<char>| spec_split_once(line, ':') is Some;
    assert(lines.push(x).drop_last() =~= lines);
    if f(x) {
        assert(lines.push(x).filter(f) =~= lines.filter(f).push(x));
        assert(headers_of_lines(lines.push(x)) =~= headers_of_lines(lines).push(
            spec_split_once(x, ':')->Some_0,
        ));
    } else {
        assert(lines.push(x).filter(f) =~= lines.filter(f));
        assert(headers_of_lines(lines.push(x)) =~= headers_of_lines(lines));
    }
}

} // verus!
