use itertools::Itertools;
use vstd::prelude::*;

verus! {

/// Whether a character counts as whitespace for the trimming
/// transformations: space, tab, newline, carriage return.
pub open spec fn is_ws(c: char) -> bool {
    c == ' ' || c == '\t' || c == '\n' || c == '\r'
}

/// The text with leading whitespace removed.
pub open spec fn trim_start_spec(s: Seq<char>) -> Seq<char>
    decreases s.len(),
{
    if s.len() == 0 {
        s
    } else if is_ws(s[0]) {
        trim_start_spec(s.drop_first())
    } else {
        s
    }
}

/// The text with trailing whitespace removed.
pub open spec fn trim_end_spec(s: Seq<char>) -> Seq<char>
    decreases s.len(),
{
    if s.len() == 0 {
        s
    } else if is_ws(s.last()) {
        trim_end_spec(s.drop_last())
    } else {
        s
    }
}

/// The text with whitespace removed from both ends.
pub open spec fn trim_spec(s: Seq<char>) -> Seq<char> {
    trim_end_spec(trim_start_spec(s))
}

fn ws_char(c: char) -> (r: bool)
    ensures
        r == is_ws(c),
{
    c == ' ' || c == '\t' || c == '\n' || c == '\r'
}

/// Relies on `String: FromIterator<char>`: collecting an iterator of
/// characters builds the string of exactly those characters, in order.
#[verifier::external_body]
pub(crate) fn string_from_chars(v: &Vec<char>) -> (r: String)
    ensures
        r@ == v@,
{
    v.iter().collect()
}

/// If the first `i` characters are whitespace, trimming the front is the
/// same on the whole text and on the text after those characters.
proof fn lemma_trim_start_skip(s: Seq<char>, i: int)
    requires
        0 <= i <= s.len(),
        forall|k: int| 0 <= k < i ==> is_ws(s[k]),
    ensures
        trim_start_spec(s) == trim_start_spec(s.skip(i)),
    decreases i,
{
    if i > 0 {
        assert(is_ws(s[0]));
        assert(s.drop_first() =~= s.skip(1));
        lemma_trim_start_skip(s.skip(1), i - 1);
        assert(s.skip(1).skip(i - 1) =~= s.skip(i));
    } else {
        assert(s.skip(0) =~= s);
    }
}

/// Trimming the front stops at the first non-whitespace character.
proof fn lemma_trim_start_at(s: Seq<char>, i: int)
    requires
        0 <= i <= s.len(),
        forall|k: int| 0 <= k < i ==> is_ws(s[k]),
        i < s.len() ==> !is_ws(s[i]),
    ensures
        trim_start_spec(s) == s.skip(i),
{
    lemma_trim_start_skip(s, i);
    let t = s.skip(i);
    if t.len() > 0 {
        assert(t[0] == s[i]);
        assert(!is_ws(t[0]));
    }
}

/// If the last `len - j` characters are whitespace, trimming the back is
/// the same on the whole text and on the text before them.
proof fn lemma_trim_end_take(s: Seq<char>, j: int)
    requires
        0 <= j <= s.len(),
        forall|k: int| j <= k < s.len() ==> is_ws(s[k]),
    ensures
        trim_end_spec(s) == trim_end_spec(s.take(j)),
    decreases s.len() - j,
{
    if j < s.len() {
        assert(is_ws(s.last()));
        assert(s.drop_last() =~= s.take(s.len() - 1));
        lemma_trim_end_take(s.take(s.len() - 1), j);
        assert(s.take(s.len() - 1).take(j) =~= s.take(j));
    } else {
        assert(s.take(s.len() as int) =~= s);
    }
}

/// Trimming the back stops at the last non-whitespace character.
proof fn lemma_trim_end_at(s: Seq<char>, j: int)
    requires
        0 <= j <= s.len(),
        forall|k: int| j <= k < s.len() ==> is_ws(s[k]),
        j > 0 ==> !is_ws(s[j - 1]),
    ensures
        trim_end_spec(s) == s.take(j),
{
    lemma_trim_end_take(s, j);
    let t = s.take(j);
    if t.len() > 0 {
        assert(t.last() == s[j - 1]);
        assert(!is_ws(t.last()));
    }
}

/// Leading whitespace removed, per the whitespace set of `is_ws`.
pub fn trim_start_str(s: &str) -> (r: String)
    ensures
        r@ == trim_start_spec(s@),
{
    let n = s.unicode_len();
    let mut i: usize = 0;
    while i < n && ws_char(s.get_char(i))
        invariant
            0 <= i <= n,
            n == s@.len(),
            forall|k: int| 0 <= k < i ==> is_ws(s@[k]),
        decreases n - i,
    {
        i = i + 1;
    }
    proof {
        lemma_trim_start_at(s@, i as int);
    }
    let sub = s.substring_char(i, n);
    String::from_str(sub)
}

/// Trailing whitespace removed, per the whitespace set of `is_ws`.
pub fn trim_end_str(s: &str) -> (r: String)
    ensures
        r@ == trim_end_spec(s@),
{
    let n = s.unicode_len();
    let mut j: usize = n;
    while j > 0 && ws_char(s.get_char(j - 1))
        invariant
            0 <= j <= n,
            n == s@.len(),
            forall|k: int| j <= k < n ==> is_ws(s@[k]),
        decreases j,
    {
        j = j - 1;
    }
    proof {
        lemma_trim_end_at(s@, j as int);
    }
    let sub = s.substring_char(0, j);
    String::from_str(sub)
}

/// Whitespace removed from both ends, per the whitespace set of `is_ws`.
pub fn trim_str(s: &str) -> (r: String)
    ensures
        r@ == trim_spec(s@),
{
    let front = trim_start_str(s);
    trim_end_str(front.as_str())
}

/// Index of the first newline in the text, or its length if there is none.
pub open spec fn first_nl(s: Seq<char>) -> int
    decreases s.len(),
{
    if s.len() == 0 {
        0
    } else if s[0] == '\n' {
        0
    } else {
        1 + first_nl(s.drop_first())
    }
}

pub proof fn lemma_first_nl(s: Seq<char>)
    ensures
        0 <= first_nl(s) <= s.len(),
        forall|k: int| 0 <= k < first_nl(s) ==> s[k] != '\n',
        first_nl(s) < s.len() ==> s[first_nl(s)] == '\n',
    decreases s.len(),
{
    if s.len() > 0 && s[0] != '\n' {
        lemma_first_nl(s.drop_first());
        assert forall|k: int| 0 <= k < first_nl(s) implies s[k] != '\n' by {
            if k > 0 {
                assert(s.drop_first()[k - 1] != '\n');
            }
        }
    }
}

/// The pieces of the text, split after each newline; every piece but
/// possibly the last ends with a newline, and the terminators are kept.
/// A final piece is emitted only if it is non-empty.
pub open spec fn split_keep_nl(s: Seq<char>) -> Seq<Seq<char>>
    decreases s.len(),
    via split_keep_nl_decreases
{
    if s.len() == 0 {
        Seq::empty()
    } else {
        let i = first_nl(s);
        if i >= s.len() {
            seq![s]
        } else {
            seq![s.subrange(0, i + 1)] + split_keep_nl(s.subrange(i + 1, s.len() as int))
        }
    }
}

#[via_fn]
proof fn split_keep_nl_decreases(s: Seq<char>) {
    lemma_first_nl(s);
}

/// Splitting a text that starts with one full newline-terminated line
/// yields that line and then the split of the remainder.
pub proof fn lemma_split_head(line: Seq<char>, rest: Seq<char>)
    requires
        line.len() > 0,
        line.last() == '\n',
        forall|k: int| 0 <= k < line.len() - 1 ==> line[k] != '\n',
    ensures
        split_keep_nl(line + rest) == seq![line] + split_keep_nl(rest),
{
    let s = line + rest;
    let i = line.len() - 1;
    lemma_first_nl(s);
    let f = first_nl(s);
    assert(s[i] == line.last());
    if f < i {
        assert(s[f] == line[f]);
        assert(false);
    }
    if f > i {
        assert(s[i] != '\n');
        assert(false);
    }
    assert(s.subrange(0, i + 1) =~= line);
    assert(s.subrange(i + 1, s.len() as int) =~= rest);
}

/// A non-empty text without any newline splits into itself alone.
pub proof fn lemma_split_whole(s: Seq<char>)
    requires
        s.len() > 0,
        forall|k: int| 0 <= k < s.len() ==> s[k] != '\n',
    ensures
        split_keep_nl(s) == seq![s],
{
    lemma_first_nl(s);
    if first_nl(s) < s.len() {
        assert(s[first_nl(s)] == '\n');
        assert(false);
    }
}

/// The pieces of the text, split after each newline, terminators kept.
pub fn split_keep_nl_str(s: &str) -> (r: Vec<String>)
    ensures
        r.deep_view() == split_keep_nl(s@),
{
    let n = s.unicode_len();
    let mut out: Vec<String> = Vec::new();
    let mut cur: Vec<char> = Vec::new();
    let mut idx: usize = 0;
    proof {
        assert(cur@ + s@.skip(0) =~= s@);
    }
    while idx < n
        invariant
            0 <= idx <= n,
            n == s@.len(),
            forall|k: int| 0 <= k < cur@.len() ==> cur@[k] != '\n',
            split_keep_nl(s@) == out.deep_view() + split_keep_nl(cur@ + s@.skip(idx as int)),
        decreases n - idx,
    {
        let ghost cur0 = cur@;
        let ghost out0 = out.deep_view();
        let c = s.get_char(idx);
        if c == '\n' {
            cur.push('\n');
            let line = string_from_chars(&cur);
            proof {
                assert(cur0.push('\n') + s@.skip(idx + 1) =~= cur0 + s@.skip(idx as int));
                lemma_split_head(cur0.push('\n'), s@.skip(idx + 1));
            }
            out.push(line);
            cur = Vec::new();
            proof {
                assert(out.deep_view() =~= out0.push(cur0.push('\n')));
                assert(cur@ + s@.skip(idx + 1) =~= s@.skip(idx + 1));
                assert(out0 + (seq![cur0.push('\n')] + split_keep_nl(s@.skip(idx + 1)))
                    =~= out.deep_view() + split_keep_nl(cur@ + s@.skip(idx + 1)));
            }
        } else {
            cur.push(c);
            proof {
                assert(cur0.push(c) + s@.skip(idx + 1) =~= cur0 + s@.skip(idx as int));
            }
        }
        idx = idx + 1;
    }
    proof {
        assert(cur@ + s@.skip(n as int) =~= cur@);
    }
    if cur.len() == 0 {
        proof {
            assert(split_keep_nl(cur@) =~= Seq::<Seq<char>>::empty());
            assert(out.deep_view() + Seq::<Seq<char>>::empty() =~= out.deep_view());
        }
        out
    } else {
        let ghost out0 = out.deep_view();
        proof {
            lemma_split_whole(cur@);
        }
        let last = string_from_chars(&cur);
        let mut out = out;
        out.push(last);
        proof {
            assert(out.deep_view() =~= out0.push(cur@));
            assert(out0 + seq![cur@] =~= out0.push(cur@));
        }
        out
    }
}

/// A line with its terminator removed: a trailing newline is dropped, and
/// a carriage return directly before that newline is dropped with it.
pub open spec fn chomp(p: Seq<char>) -> Seq<char> {
    if p.len() > 0 && p.last() == '\n' {
        let q = p.drop_last();
        if q.len() > 0 && q.last() == '\r' {
            q.drop_last()
        } else {
            q
        }
    } else {
        p
    }
}

/// The lines of the text: split after each newline, then each line's
/// terminator (newline, or carriage return and newline) removed.
pub open spec fn split_lines(s: Seq<char>) -> Seq<Seq<char>> {
    split_keep_nl(s).map_values(|p: Seq<char>| chomp(p))
}

/// One line with its terminator removed, as `chomp` describes.
pub fn chomp_str(p: &str) -> (r: String)
    ensures
        r@ == chomp(p@),
{
    let n = p.unicode_len();
    if n > 0 && p.get_char(n - 1) == '\n' {
        if n > 1 && p.get_char(n - 2) == '\r' {
            proof {
                assert(p@.drop_last().drop_last() =~= p@.subrange(0, n - 2));
            }
            String::from_str(p.substring_char(0, n - 2))
        } else {
            proof {
                assert(p@.drop_last() =~= p@.subrange(0, n - 1));
            }
            String::from_str(p.substring_char(0, n - 1))
        }
    } else {
        String::from_str(p.substring_char(0, n))
    }
}

/// The lines of the text, terminators removed, as `split_lines` describes.
pub fn split_lines_str(s: &str) -> (r: Vec<String>)
    ensures
        r.deep_view() == split_lines(s@),
{
    let pieces = split_keep_nl_str(s);
    let mut out: Vec<String> = Vec::new();
    let mut i: usize = 0;
    while i < pieces.len()
        invariant
            0 <= i <= pieces.len(),
            pieces.deep_view() == split_keep_nl(s@),
            out.deep_view() == split_keep_nl(s@).take(i as int).map_values(
                |p: Seq<char>| chomp(p),
            ),
        decreases pieces.len() - i,
    {
        let ghost out0 = out.deep_view();
        let line = chomp_str(pieces[i].as_str());
        out.push(line);
        proof {
            assert(pieces[i as int]@ == pieces.deep_view()[i as int]);
            assert(out.deep_view() =~= out0.push(chomp(split_keep_nl(s@)[i as int])));
            assert(out.deep_view() =~= split_keep_nl(s@).take(i + 1).map_values(
                |p: Seq<char>| chomp(p),
            ));
        }
        i = i + 1;
    }
    proof {
        assert(split_keep_nl(s@).take(pieces.deep_view().len() as int) =~= split_keep_nl(s@));
    }
    out
}

/// The lines joined with a single newline between them; nothing is added
/// after the last line.
pub open spec fn join_nl(v: Seq<Seq<char>>) -> Seq<char>
    decreases v.len(),
{
    if v.len() == 0 {
        Seq::empty()
    } else if v.len() == 1 {
        v[0]
    } else {
        join_nl(v.drop_last()) + seq!['\n'] + v.last()
    }
}

/// The lines joined with a single newline between them.
pub fn join_nl_str(v: &Vec<String>) -> (r: String)
    ensures
        r@ == join_nl(v.deep_view()),
{
    let mut acc = String::new();
    let mut i: usize = 0;
    while i < v.len()
        invariant
            0 <= i <= v.len(),
            acc@ == join_nl(v.deep_view().take(i as int)),
        decreases v.len() - i,
    {
        if i > 0 {
            acc.append("\n");
            proof {
                reveal_strlit("\n");
                assert("\n"@ =~= seq!['\n']);
            }
        }
        acc.append(v[i].as_str());
        proof {
            let dv = v.deep_view();
            assert(v[i as int]@ == dv[i as int]);
            assert(dv.take(i + 1).drop_last() =~= dv.take(i as int));
            assert(dv.take(i + 1).last() == dv[i as int]);
            if i == 0 {
                assert(acc@ =~= join_nl(dv.take(1)));
            }
        }
        i = i + 1;
    }
    proof {
        assert(v.deep_view().take(v.deep_view().len() as int) =~= v.deep_view());
    }
    acc
}

/// The lines with every repetition of an earlier line dropped: each
/// distinct line is kept once, at the position of its first occurrence.
pub open spec fn dedup_first(v: Seq<Seq<char>>) -> Seq<Seq<char>>
    decreases v.len(),
{
    if v.len() == 0 {
        v
    } else {
        let rest = dedup_first(v.drop_last());
        if v.drop_last().contains(v.last()) {
            rest
        } else {
            rest.push(v.last())
        }
    }
}

/// Deduplication keeps exactly the values that occur in the input.
pub proof fn lemma_dedup_contains(v: Seq<Seq<char>>, x: Seq<char>)
    ensures
        dedup_first(v).contains(x) <==> v.contains(x),
    decreases v.len(),
{
    if v.len() > 0 {
        lemma_dedup_contains(v.drop_last(), x);
        let rest = dedup_first(v.drop_last());
        if v.contains(x) {
            let i = choose|i: int| 0 <= i < v.len() && v[i] == x;
            if i < v.len() - 1 {
                assert(v.drop_last()[i] == x);
                assert(v.drop_last().contains(x));
                let j = choose|j: int| 0 <= j < rest.len() && rest[j] == x;
                assert(dedup_first(v)[j] == x);
                assert(dedup_first(v).contains(x));
            } else {
                if v.drop_last().contains(x) {
                    assert(dedup_first(v) == rest);
                } else {
                    assert(dedup_first(v) == rest.push(x));
                    assert(dedup_first(v).last() == x);
                    assert(dedup_first(v).contains(x));
                }
            }
        }
        if dedup_first(v).contains(x) {
            if v.drop_last().contains(x) {
                let i = choose|i: int| 0 <= i < v.drop_last().len() && v.drop_last()[i] == x;
                assert(v[i] == x);
            } else {
                let j = choose|j: int| 0 <= j < dedup_first(v).len() && dedup_first(v)[j] == x;
                if j < rest.len() {
                    assert(rest[j] == x);
                    let i = choose|i: int| 0 <= i < v.drop_last().len() && v.drop_last()[i] == x;
                    assert(v[i] == x);
                } else {
                    assert(x == v.last());
                }
            }
        }
    }
}

/// Deduplication leaves no two equal lines.
pub proof fn lemma_dedup_no_dups(v: Seq<Seq<char>>)
    ensures
        forall|i: int, j: int|
            0 <= i < j < dedup_first(v).len() ==> dedup_first(v)[i] != dedup_first(v)[j],
    decreases v.len(),
{
    if v.len() > 0 {
        let prefix = v.drop_last();
        lemma_dedup_no_dups(prefix);
        let rest = dedup_first(prefix);
        if !prefix.contains(v.last()) {
            assert forall|i: int, j: int|
                0 <= i < j < dedup_first(v).len() implies dedup_first(v)[i] != dedup_first(
                v,
            )[j] by {
                if j == rest.len() {
                    assert(rest.contains(rest[i]));
                    lemma_dedup_contains(prefix, rest[i]);
                }
            }
        }
    }
}

/// A sequence without repetitions is left unchanged by deduplication.
pub proof fn lemma_dedup_of_distinct(v: Seq<Seq<char>>)
    requires
        forall|i: int, j: int| 0 <= i < j < v.len() ==> v[i] != v[j],
    ensures
        dedup_first(v) == v,
    decreases v.len(),
{
    if v.len() > 0 {
        let prefix = v.drop_last();
        lemma_dedup_of_distinct(prefix);
        if prefix.contains(v.last()) {
            let i = choose|i: int| 0 <= i < prefix.len() && prefix[i] == v.last();
            assert(v[i] == v[v.len() - 1]);
            assert(false);
        }
        assert(prefix.push(v.last()) =~= v);
    }
}

/// Deduplicating twice is the same as deduplicating once.
pub proof fn lemma_dedup_idempotent(v: Seq<Seq<char>>)
    ensures
        dedup_first(dedup_first(v)) == dedup_first(v),
{
    lemma_dedup_no_dups(v);
    lemma_dedup_of_distinct(dedup_first(v));
}

/// Relies on itertools' `unique`: it filters out elements already produced,
/// is stable, and in a set of duplicates keeps the first item encountered.
#[verifier::external_body]
pub(crate) fn unique_strings(v: Vec<String>) -> (r: Vec<String>)
    ensures
        r.deep_view() == dedup_first(v.deep_view()),
{
    v.into_iter().unique().collect()
}

/// What `str::to_uppercase` returns for the given characters.
pub uninterp spec fn upper_of(s: Seq<char>) -> Seq<char>;

/// What `str::to_lowercase` returns for the given characters.
pub uninterp spec fn lower_of(s: Seq<char>) -> Seq<char>;

/// Relies on `str::to_uppercase`: the Unicode uppercase equivalent of the
/// text, a function of the characters alone.
#[verifier::external_body]
pub(crate) fn to_upper(s: &str) -> (r: String)
    ensures
        r@ == upper_of(s@),
{
    s.to_uppercase()
}

/// Relies on `str::to_lowercase`: the Unicode lowercase equivalent of the
/// text, a function of the characters alone.
#[verifier::external_body]
pub(crate) fn to_lower(s: &str) -> (r: String)
    ensures
        r@ == lower_of(s@),
{
    s.to_lowercase()
}

/// Whether two string slices hold the same characters.
pub fn eq_str(a: &str, b: &str) -> (r: bool)
    ensures
        r == (a@ == b@),
{
    let na = a.unicode_len();
    let nb = b.unicode_len();
    if na != nb {
        return false;
    }
    let mut i: usize = 0;
    while i < na
        invariant
            0 <= i <= na,
            na == a@.len(),
            na == b@.len(),
            forall|k: int| 0 <= k < i ==> a@[k] == b@[k],
        decreases na - i,
    {
        if a.get_char(i) != b.get_char(i) {
            return false;
        }
        i = i + 1;
    }
    proof {
        assert(a@ =~= b@);
    }
    true
}

} // verus!
