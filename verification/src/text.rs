//! Verified text utilities: ASCII case mapping, splitting on a delimiter,
//! trimming, and literal substring replacement, plus the conversions between
//! `String` and `Vec<char>` the rest of the library uses.

use vstd::prelude::*;
use vstd::string::StrSliceExecFns;

verus! {

/// ASCII whitespace: what trimming removes from the ends of a piece.
pub open spec fn is_ascii_space(c: char) -> bool {
    c == ' ' || c == '\t' || c == '\n' || c == '\r' || c == '\u{b}' || c == '\u{c}'
}

/// ASCII upper-casing of one character; anything outside `a`..`z` is kept.
pub open spec fn upper_char(c: char) -> char {
    if 97 <= c as u32 && c as u32 <= 122 {
        (((c as u32) - 32) as u8) as char
    } else {
        c
    }
}

/// ASCII upper-casing of a whole character sequence.
pub open spec fn upper_seq(s: Seq<char>) -> Seq<char> {
    Seq::new(s.len(), |i: int| upper_char(s[i]))
}

/// `-` and `_` become spaces; every other character is kept.
pub open spec fn dash_to_space(c: char) -> char {
    if c == '-' || c == '_' {
        ' '
    } else {
        c
    }
}

/// The sequence with `-` and `_` turned into spaces.
pub open spec fn clean_seq(s: Seq<char>) -> Seq<char> {
    Seq::new(s.len(), |i: int| dash_to_space(s[i]))
}

/// The character sequences held by a sequence of character buffers.
pub open spec fn seq_views(vs: Seq<Vec<char>>) -> Seq<Seq<char>> {
    Seq::new(vs.len(), |i: int| vs[i]@)
}

/// The character sequences held by a sequence of strings.
pub open spec fn str_views(vs: Seq<String>) -> Seq<Seq<char>> {
    Seq::new(vs.len(), |i: int| vs[i]@)
}

/// The pieces of `s` between occurrences of the delimiter `d`, in order;
/// always at least one piece, and empty pieces where delimiters meet.
pub open spec fn split_on(s: Seq<char>, d: char) -> Seq<Seq<char>>
    decreases s.len(),
{
    if s.len() == 0 {
        seq![Seq::<char>::empty()]
    } else if s.last() == d {
        split_on(s.drop_last(), d).push(Seq::<char>::empty())
    } else {
        let r = split_on(s.drop_last(), d);
        r.update(r.len() - 1, r.last().push(s.last()))
    }
}

/// Splitting yields between 1 and `len + 1` pieces.
pub proof fn lemma_split_on_len(s: Seq<char>, d: char)
    ensures
        1 <= split_on(s, d).len() <= s.len() + 1,
    decreases s.len(),
{
    if s.len() > 0 {
        lemma_split_on_len(s.drop_last(), d);
    }
}

/// One unit per piece plus the characters of each piece.
pub open spec fn pieces_cost(ws: Seq<Seq<char>>) -> int
    decreases ws.len(),
{
    if ws.len() == 0 {
        0
    } else {
        pieces_cost(ws.drop_last()) + 1 + ws.last().len()
    }
}

/// Every piece's length is accounted for in the source: the pieces of `s`
/// cost exactly `s.len() + 1`.
pub proof fn lemma_split_on_cost(s: Seq<char>, d: char)
    ensures
        pieces_cost(split_on(s, d)) == s.len() + 1,
    decreases s.len(),
{
    if s.len() == 0 {
        let one = seq![Seq::<char>::empty()];
        assert(split_on(s, d) == one);
        assert(one.drop_last() =~= Seq::<Seq<char>>::empty());
        assert(pieces_cost(one) == pieces_cost(one.drop_last()) + 1 + one.last().len());
    } else {
        lemma_split_on_cost(s.drop_last(), d);
        let r = split_on(s.drop_last(), d);
        lemma_split_on_len(s.drop_last(), d);
        if s.last() == d {
            let r2 = r.push(Seq::<char>::empty());
            assert(split_on(s, d) == r2);
            assert(r2.drop_last() =~= r);
            assert(pieces_cost(r2) == pieces_cost(r) + 1);
        } else {
            let r2 = r.update(r.len() - 1, r.last().push(s.last()));
            assert(split_on(s, d) == r2);
            assert(r2.drop_last() =~= r.drop_last());
            assert(r2.last() == r.last().push(s.last()));
            assert(pieces_cost(r2) == pieces_cost(r.drop_last()) + 1 + r.last().len() + 1);
            assert(pieces_cost(r) == pieces_cost(r.drop_last()) + 1 + r.last().len());
        }
    }
}

/// Splitting off the first piece: its cost plus the rest's cost is the whole.
pub proof fn lemma_pieces_cost_first(ws: Seq<Seq<char>>)
    requires
        1 <= ws.len(),
    ensures
        pieces_cost(ws) == 1 + ws[0].len() + pieces_cost(ws.drop_first()),
    decreases ws.len(),
{
    if ws.len() == 1 {
        assert(ws.drop_last() =~= Seq::<Seq<char>>::empty());
        assert(ws.drop_first() =~= Seq::<Seq<char>>::empty());
        assert(ws.last() == ws[0]);
    } else {
        lemma_pieces_cost_first(ws.drop_last());
        assert(ws.drop_last().drop_first() =~= ws.drop_first().drop_last());
        assert(ws.drop_last()[0] == ws[0]);
        assert(ws.drop_first().last() == ws.last());
        assert(pieces_cost(ws.drop_first()) == pieces_cost(ws.drop_first().drop_last()) + 1
            + ws.drop_first().last().len());
    }
}

/// Every cost is nonnegative.
pub proof fn lemma_pieces_cost_nonneg(ws: Seq<Seq<char>>)
    ensures
        pieces_cost(ws) >= ws.len(),
    decreases ws.len(),
{
    if ws.len() > 0 {
        lemma_pieces_cost_nonneg(ws.drop_last());
    }
}

/// Each piece is smaller than the whole cost.
pub proof fn lemma_pieces_cost_each(ws: Seq<Seq<char>>)
    ensures
        forall|k: int| 0 <= k < ws.len() ==> (#[trigger] ws[k]).len() < pieces_cost(ws),
    decreases ws.len(),
{
    if ws.len() > 0 {
        lemma_pieces_cost_each(ws.drop_last());
        lemma_pieces_cost_nonneg(ws.drop_last());
        assert forall|k: int| 0 <= k < ws.len() implies (#[trigger] ws[k]).len() < pieces_cost(
            ws,
        ) by {
            if k < ws.len() - 1 {
                assert(ws.drop_last()[k] == ws[k]);
            }
        }
    }
}

/// The sequence without leading ASCII whitespace.
pub open spec fn trim_start_seq(s: Seq<char>) -> Seq<char>
    decreases s.len(),
{
    if s.len() > 0 && is_ascii_space(s[0]) {
        trim_start_seq(s.drop_first())
    } else {
        s
    }
}

/// The sequence without trailing ASCII whitespace.
pub open spec fn trim_end_seq(s: Seq<char>) -> Seq<char>
    decreases s.len(),
{
    if s.len() > 0 && is_ascii_space(s.last()) {
        trim_end_seq(s.drop_last())
    } else {
        s
    }
}

/// The sequence without leading or trailing ASCII whitespace.
pub open spec fn trim_seq(s: Seq<char>) -> Seq<char> {
    trim_end_seq(trim_start_seq(s))
}

/// Whether `s` begins with `pat`.
pub open spec fn starts_with(s: Seq<char>, pat: Seq<char>) -> bool {
    pat.len() <= s.len() && s.take(pat.len() as int) == pat
}

/// The replacement interleaved before every character and at the end; what
/// replacing an empty pattern produces.
pub open spec fn interleave_rep(s: Seq<char>, rep: Seq<char>) -> Seq<char>
    decreases s.len(),
{
    if s.len() == 0 {
        rep
    } else {
        rep + seq![s[0]] + interleave_rep(s.drop_first(), rep)
    }
}

/// `s` with every leftmost, non-overlapping occurrence of `pat` replaced by
/// `rep`; an empty pattern matches at every character boundary.
pub open spec fn replace_seq(s: Seq<char>, pat: Seq<char>, rep: Seq<char>) -> Seq<char>
    decreases s.len(),
{
    if pat.len() == 0 {
        interleave_rep(s, rep)
    } else if s.len() == 0 {
        s
    } else if starts_with(s, pat) {
        rep + replace_seq(s.skip(pat.len() as int), pat, rep)
    } else {
        seq![s[0]] + replace_seq(s.drop_first(), pat, rep)
    }
}

/// The characters of `s`, in order.
pub fn str_chars(s: &str) -> (r: Vec<char>)
    ensures
        r@ == s@,
{
    let n = s.unicode_len();
    let mut r: Vec<char> = Vec::new();
    let mut i: usize = 0;
    while i < n
        invariant
            i <= n,
            n == s@.len(),
            r@ == s@.take(i as int),
        decreases n - i,
    {
        let c = s.get_char(i);
        r.push(c);
        proof {
            assert(r@ =~= s@.take(i + 1));
        }
        i = i + 1;
    }
    proof {
        assert(s@.take(n as int) =~= s@);
    }
    r
}

/// Relies on std's `String::push`: appends one character to the string.
#[verifier::external_body]
fn push_char(s: &mut String, c: char)
    ensures
        final(s)@ == old(s)@.push(c),
{
    s.push(c);
}

/// The string holding exactly the given characters.
pub fn chars_to_string(v: &Vec<char>) -> (r: String)
    ensures
        r@ == v@,
{
    let mut r = String::new();
    let mut i: usize = 0;
    while i < v.len()
        invariant
            i <= v@.len(),
            r@ == v@.take(i as int),
        decreases v@.len() - i,
    {
        push_char(&mut r, v[i]);
        proof {
            assert(r@ =~= v@.take(i + 1));
        }
        i = i + 1;
    }
    proof {
        assert(v@.take(v@.len() as int) =~= v@);
    }
    r
}

/// Appends all of `add` to `out`.
pub fn push_all(out: &mut Vec<char>, add: &Vec<char>)
    ensures
        final(out)@ == old(out)@ + add@,
{
    let mut j: usize = 0;
    while j < add.len()
        invariant
            j <= add@.len(),
            out@ == old(out)@ + add@.take(j as int),
        decreases add@.len() - j,
    {
        out.push(add[j]);
        proof {
            assert(old(out)@ + add@.take(j as int) + seq![add@[j as int]] =~= old(out)@ + add@.take(
                j + 1,
            ));
        }
        j = j + 1;
    }
    proof {
        assert(old(out)@ + add@.take(add@.len() as int) =~= old(out)@ + add@);
    }
}

/// ASCII upper-casing of a character, executable form.
pub fn upper_char_value(c: char) -> (r: char)
    ensures
        r == upper_char(c),
{
    let u = c as u32;
    if 97 <= u && u <= 122 {
        ((u - 32) as u8) as char
    } else {
        c
    }
}

/// ASCII upper-casing of a whole buffer.
pub fn upper_chars(v: &Vec<char>) -> (r: Vec<char>)
    ensures
        r@ == upper_seq(v@),
{
    let mut r: Vec<char> = Vec::new();
    let mut i: usize = 0;
    while i < v.len()
        invariant
            i <= v@.len(),
            r@.len() == i,
            forall|k: int| 0 <= k < i ==> r@[k] == upper_char(v@[k]),
        decreases v@.len() - i,
    {
        let c = upper_char_value(v[i]);
        r.push(c);
        i = i + 1;
    }
    proof {
        assert(r@ =~= upper_seq(v@));
    }
    r
}

/// The pieces of `s` between occurrences of `d`.
pub fn split_chars(s: &Vec<char>, d: char) -> (r: Vec<Vec<char>>)
    ensures
        seq_views(r@) == split_on(s@, d),
        r@.len() >= 1,
{
    let mut done: Vec<Vec<char>> = Vec::new();
    let mut cur: Vec<char> = Vec::new();
    let mut i: usize = 0;
    while i < s.len()
        invariant
            i <= s@.len(),
            seq_views(done@).push(cur@) == split_on(s@.take(i as int), d),
        decreases s@.len() - i,
    {
        let ghost prefix = s@.take(i as int);
        let ghost next = s@.take(i + 1);
        let ghost r0 = split_on(prefix, d);
        proof {
            assert(next.drop_last() =~= prefix);
            assert(next.last() == s@[i as int]);
        }
        if s[i] == d {
            let ghost odv = seq_views(done@);
            let ghost ocur = cur@;
            done.push(cur);
            cur = Vec::new();
            proof {
                assert(seq_views(done@) =~= odv.push(ocur));
                assert(seq_views(done@).push(cur@) =~= r0.push(Seq::<char>::empty()));
                assert(split_on(next, d) == r0.push(Seq::<char>::empty()));
            }
        } else {
            let ghost ocur = cur@;
            cur.push(s[i]);
            proof {
                assert(r0.last() == ocur);
                assert(seq_views(done@).push(cur@) =~= r0.update(r0.len() - 1, r0.last().push(
                    s@[i as int],
                )));
                assert(split_on(next, d) == r0.update(r0.len() - 1, r0.last().push(
                    s@[i as int],
                )));
            }
        }
        i = i + 1;
    }
    proof {
        assert(s@.take(s@.len() as int) =~= s@);
    }
    let ghost dv = seq_views(done@);
    done.push(cur);
    proof {
        assert(seq_views(done@) =~= dv.push(cur@));
        assert(seq_views(done@) == split_on(s@, d));
        lemma_split_on_len(s@, d);
    }
    done
}

/// `v` without leading or trailing ASCII whitespace.
pub fn trim_chars(v: &Vec<char>) -> (r: Vec<char>)
    ensures
        r@ == trim_seq(v@),
{
    let n = v.len();
    proof {
        assert(v@.skip(0) =~= v@);
    }
    let mut lo: usize = 0;
    while lo < n && is_space_value(v[lo])
        invariant
            lo <= n,
            n == v@.len(),
            trim_start_seq(v@) == trim_start_seq(v@.skip(lo as int)),
        decreases n - lo,
    {
        proof {
            assert(v@.skip(lo as int).drop_first() =~= v@.skip(lo + 1));
        }
        lo = lo + 1;
    }
    proof {
        assert(trim_start_seq(v@) == v@.skip(lo as int));
        assert(v@.skip(lo as int) =~= v@.subrange(lo as int, n as int));
    }
    let mut hi: usize = n;
    while hi > lo && is_space_value(v[hi - 1])
        invariant
            lo <= hi <= n,
            n == v@.len(),
            trim_start_seq(v@) == v@.skip(lo as int),
            trim_end_seq(v@.skip(lo as int)) == trim_end_seq(v@.subrange(lo as int, hi as int)),
        decreases hi,
    {
        proof {
            assert(v@.subrange(lo as int, hi as int).drop_last() =~= v@.subrange(
                lo as int,
                hi - 1,
            ));
            assert(v@.subrange(lo as int, hi as int).last() == v@[hi - 1]);
        }
        hi = hi - 1;
    }
    proof {
        if hi == lo {
            assert(v@.subrange(lo as int, hi as int).len() == 0);
        }
        assert(trim_end_seq(v@.subrange(lo as int, hi as int)) == v@.subrange(
            lo as int,
            hi as int,
        ));
    }
    let mut r: Vec<char> = Vec::new();
    let mut i: usize = lo;
    while i < hi
        invariant
            lo <= i <= hi <= n,
            n == v@.len(),
            r@ == v@.subrange(lo as int, i as int),
        decreases hi - i,
    {
        r.push(v[i]);
        proof {
            assert(r@ =~= v@.subrange(lo as int, i + 1));
        }
        i = i + 1;
    }
    r
}

/// Whether the character is ASCII whitespace, executable form.
pub fn is_space_value(c: char) -> (r: bool)
    ensures
        r == is_ascii_space(c),
{
    c == ' ' || c == '\t' || c == '\n' || c == '\r' || c == '\u{b}' || c == '\u{c}'
}

/// Whether `pat` occurs in `s` starting at position `i`.
fn is_match_at(s: &Vec<char>, pat: &Vec<char>, i: usize) -> (r: bool)
    requires
        i <= s@.len(),
    ensures
        r == starts_with(s@.skip(i as int), pat@),
{
    let m = pat.len();
    let n = s.len();
    if m > n - i {
        return false;
    }
    let mut j: usize = 0;
    while j < m
        invariant
            j <= m,
            m == pat@.len(),
            n == s@.len(),
            i + m <= n,
            forall|k: int| 0 <= k < j ==> s@[i + k] == pat@[k],
        decreases m - j,
    {
        if s[i + j] != pat[j] {
            proof {
                assert(s@.skip(i as int).take(m as int)[j as int] != pat@[j as int]);
            }
            return false;
        }
        j = j + 1;
    }
    proof {
        assert(s@.skip(i as int).take(m as int) =~= pat@);
    }
    true
}

/// `s` with every occurrence of `pat` replaced by `rep` (leftmost first,
/// non-overlapping, literal comparison).
pub fn replace_chars(s: &Vec<char>, pat: &Vec<char>, rep: &Vec<char>) -> (r: Vec<char>)
    ensures
        r@ == replace_seq(s@, pat@, rep@),
{
    let mut out: Vec<char> = Vec::new();
    proof {
        assert(s@.skip(0) =~= s@);
    }
    if pat.len() == 0 {
        let mut i: usize = 0;
        while i < s.len()
            invariant
                i <= s@.len(),
                out@ + interleave_rep(s@.skip(i as int), rep@) == interleave_rep(s@, rep@),
            decreases s@.len() - i,
        {
            push_all(&mut out, rep);
            out.push(s[i]);
            proof {
                assert(s@.skip(i as int).drop_first() =~= s@.skip(i + 1));
                assert(s@.skip(i as int)[0] == s@[i as int]);
                assert(out@ + interleave_rep(s@.skip(i + 1), rep@) =~= interleave_rep(s@, rep@));
            }
            i = i + 1;
        }
        push_all(&mut out, rep);
        proof {
            assert(s@.skip(s@.len() as int) =~= Seq::<char>::empty());
            assert(out@ =~= interleave_rep(s@, rep@));
        }
        return out;
    }
    let mut i: usize = 0;
    while i < s.len()
        invariant
            i <= s@.len(),
            pat@.len() >= 1,
            out@ + replace_seq(s@.skip(i as int), pat@, rep@) == replace_seq(s@, pat@, rep@),
        decreases s@.len() - i,
    {
        if is_match_at(s, pat, i) {
            push_all(&mut out, rep);
            proof {
                assert(s@.skip(i as int).skip(pat@.len() as int) =~= s@.skip(i + pat@.len()));
                assert(out@ + replace_seq(s@.skip(i + pat@.len()), pat@, rep@) =~= replace_seq(
                    s@,
                    pat@,
                    rep@,
                ));
            }
            i = i + pat.len();
        } else {
            out.push(s[i]);
            proof {
                assert(s@.skip(i as int).drop_first() =~= s@.skip(i + 1));
                assert(s@.skip(i as int)[0] == s@[i as int]);
                assert(out@ + replace_seq(s@.skip(i + 1), pat@, rep@) =~= replace_seq(
                    s@,
                    pat@,
                    rep@,
                ));
            }
            i = i + 1;
        }
    }
    proof {
        assert(s@.skip(s@.len() as int) =~= Seq::<char>::empty());
        assert(out@ =~= replace_seq(s@, pat@, rep@));
    }
    out
}

/// Cleans a path piece into usable text: `-` and `_` become spaces.
pub fn path_to_clean_text(text: String) -> (r: String)
    ensures
        r@ == clean_seq(text@),
{
    let chars = str_chars(text.as_str());
    let mut out: Vec<char> = Vec::new();
    let mut i: usize = 0;
    while i < chars.len()
        invariant
            i <= chars@.len(),
            chars@ == text@,
            out@.len() == i,
            forall|k: int| 0 <= k < i ==> out@[k] == dash_to_space(text@[k]),
        decreases chars@.len() - i,
    {
        let c = chars[i];
        if c == '-' || c == '_' {
            out.push(' ');
        } else {
            out.push(c);
        }
        i = i + 1;
    }
    proof {
        assert(out@ =~= clean_seq(text@));
    }
    chars_to_string(&out)
}

/// The trimmed pieces of the text between `|` delimiters, in order.
pub open spec fn clean_pieces(s: Seq<char>) -> Seq<Seq<char>> {
    Seq::new(split_on(s, '|').len(), |i: int| trim_seq(split_on(s, '|')[i]))
}

/// Divides a text on `|` delimiters and trims each piece.
pub fn clean_text_to_vec(text: String) -> (r: Vec<String>)
    ensures
        str_views(r@) == clean_pieces(text@),
{
    let chars = str_chars(text.as_str());
    let pieces = split_chars(&chars, '|');
    let mut out: Vec<String> = Vec::new();
    let mut i: usize = 0;
    while i < pieces.len()
        invariant
            i <= pieces@.len(),
            seq_views(pieces@) == split_on(text@, '|'),
            pieces@.len() == split_on(text@, '|').len(),
            out@.len() == i,
            forall|k: int|
                0 <= k < i ==> (#[trigger] str_views(out@)[k]) == trim_seq(
                    split_on(text@, '|')[k],
                ),
        decreases pieces@.len() - i,
    {
        let trimmed = trim_chars(&pieces[i]);
        proof {
            assert(pieces@[i as int]@ == seq_views(pieces@)[i as int]);
        }
        let piece_str = chars_to_string(&trimmed);
        let ghost ov = out@;
        let ghost pv = piece_str@;
        out.push(piece_str);
        proof {
            assert(str_views(out@) =~= str_views(ov).push(pv));
            assert forall|k: int| 0 <= k < i + 1 implies (#[trigger] str_views(out@)[k])
                == trim_seq(split_on(text@, '|')[k]) by {
                if k < i {
                    assert(str_views(out@)[k] == str_views(ov)[k]);
                }
            }
        }
        i = i + 1;
    }
    proof {
        assert(str_views(out@) =~= clean_pieces(text@));
    }
    out
}

} // verus!
