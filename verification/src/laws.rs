use crate::engine::{run_output, source_output, sources_ok};
use crate::numeric::{all_parse, dec_str_i64, math_sum, parsed_vals, sum_wrapped};
use crate::text::{
    chomp, dedup_first, first_nl, is_ws, join_nl, lemma_dedup_contains, lemma_dedup_idempotent,
    lemma_dedup_no_dups, lemma_dedup_of_distinct, lemma_first_nl, lemma_split_head,
    lemma_split_whole, split_keep_nl, split_lines, trim_end_spec, trim_spec, trim_start_spec,
};
use crate::tool::{apply_spec, IterTool};
use vstd::prelude::*;

verus! {

/// Trimming the front never leaves whitespace at the front.
proof fn lemma_trim_start_head(s: Seq<char>)
    ensures
        trim_start_spec(s).len() > 0 ==> !is_ws(trim_start_spec(s)[0]),
    decreases s.len(),
{
    if s.len() > 0 && is_ws(s[0]) {
        lemma_trim_start_head(s.drop_first());
    }
}

/// Trimming the back never leaves whitespace at the back.
proof fn lemma_trim_end_last(s: Seq<char>)
    ensures
        trim_end_spec(s).len() > 0 ==> !is_ws(trim_end_spec(s).last()),
    decreases s.len(),
{
    if s.len() > 0 && is_ws(s.last()) {
        lemma_trim_end_last(s.drop_last());
    }
}

/// Trimming the back yields a prefix of the text.
proof fn lemma_trim_end_prefix(s: Seq<char>)
    ensures
        trim_end_spec(s).len() <= s.len(),
        trim_end_spec(s) == s.take(trim_end_spec(s).len() as int),
    decreases s.len(),
{
    if s.len() == 0 {
        assert(s.take(0) =~= s);
    } else if is_ws(s.last()) {
        lemma_trim_end_prefix(s.drop_last());
        assert(s.drop_last().take(trim_end_spec(s).len() as int) =~= s.take(
            trim_end_spec(s).len() as int,
        ));
    } else {
        assert(s.take(s.len() as int) =~= s);
    }
}

/// A text with nothing but whitespace at the front, if anything, is left
/// unchanged by a front trim.
proof fn lemma_trim_start_noop(s: Seq<char>)
    requires
        s.len() > 0 ==> !is_ws(s[0]),
    ensures
        trim_start_spec(s) == s,
{
}

/// A text with nothing but whitespace at the back, if anything, is left
/// unchanged by a back trim.
proof fn lemma_trim_end_noop(s: Seq<char>)
    requires
        s.len() > 0 ==> !is_ws(s.last()),
    ensures
        trim_end_spec(s) == s,
{
}

/// Trimming the front twice is the same as trimming it once.
pub proof fn lemma_trim_start_idempotent(s: Seq<char>)
    ensures
        trim_start_spec(trim_start_spec(s)) == trim_start_spec(s),
{
    lemma_trim_start_head(s);
    lemma_trim_start_noop(trim_start_spec(s));
}

/// Trimming the back twice is the same as trimming it once.
pub proof fn lemma_trim_end_idempotent(s: Seq<char>)
    ensures
        trim_end_spec(trim_end_spec(s)) == trim_end_spec(s),
{
    lemma_trim_end_last(s);
    lemma_trim_end_noop(trim_end_spec(s));
}

/// Trimming both ends twice is the same as trimming them once.
pub proof fn lemma_trim_idempotent(s: Seq<char>)
    ensures
        trim_spec(trim_spec(s)) == trim_spec(s),
{
    let x = trim_end_spec(trim_start_spec(s));
    lemma_trim_start_head(s);
    lemma_trim_end_prefix(trim_start_spec(s));
    if x.len() > 0 {
        assert(x[0] == trim_start_spec(s)[0]);
    }
    lemma_trim_start_noop(x);
    lemma_trim_end_last(trim_start_spec(s));
    lemma_trim_end_noop(x);
}

/// Index of the first occurrence of a value among the lines.
pub open spec fn first_idx(v: Seq<Seq<char>>, x: Seq<char>) -> int
    decreases v.len(),
{
    if v.len() == 0 {
        0
    } else if v[0] == x {
        0
    } else {
        1 + first_idx(v.drop_first(), x)
    }
}

proof fn lemma_first_idx_props(v: Seq<Seq<char>>, x: Seq<char>)
    requires
        v.contains(x),
    ensures
        0 <= first_idx(v, x) < v.len(),
        v[first_idx(v, x)] == x,
        forall|k: int| 0 <= k < first_idx(v, x) ==> v[k] != x,
    decreases v.len(),
{
    if v[0] != x {
        let i = choose|i: int| 0 <= i < v.len() && v[i] == x;
        assert(v.drop_first()[i - 1] == x);
        assert(v.drop_first().contains(x));
        lemma_first_idx_props(v.drop_first(), x);
        assert forall|k: int| 0 <= k < first_idx(v, x) implies v[k] != x by {
            if k > 0 {
                assert(v.drop_first()[k - 1] != x);
            }
        }
    }
}

/// Appending a line does not move the first occurrence of a value already
/// present.
proof fn lemma_first_idx_push_contained(v: Seq<Seq<char>>, y: Seq<char>, x: Seq<char>)
    requires
        v.contains(x),
    ensures
        first_idx(v.push(y), x) == first_idx(v, x),
    decreases v.len(),
{
    if v[0] != x {
        let i = choose|i: int| 0 <= i < v.len() && v[i] == x;
        assert(v.drop_first()[i - 1] == x);
        assert(v.drop_first().contains(x));
        lemma_first_idx_push_contained(v.drop_first(), y, x);
        assert(v.push(y).drop_first() =~= v.drop_first().push(y));
        assert(v.push(y)[0] == v[0]);
    }
}

/// The first occurrence of a value seen for the first time is at the end.
proof fn lemma_first_idx_push_new(v: Seq<Seq<char>>, x: Seq<char>)
    requires
        !v.contains(x),
    ensures
        first_idx(v.push(x), x) == v.len(),
    decreases v.len(),
{
    if v.len() == 0 {
        assert(v.push(x)[0] == x);
    } else {
        assert(v[0] != x);
        assert(v.push(x)[0] == v[0]);
        assert forall|k: int| 0 <= k < v.drop_first().len() implies v.drop_first()[k] != x by {
            assert(v[k + 1] != x);
        }
        assert(!v.drop_first().contains(x));
        lemma_first_idx_push_new(v.drop_first(), x);
        assert(v.push(x).drop_first() =~= v.drop_first().push(x));
    }
}

/// Unique preserves the relative order of first occurrences: each kept
/// line is a line of the input, and the kept lines stand in the order in
/// which they first occur there.
pub proof fn lemma_unique_order(v: Seq<Seq<char>>)
    ensures
        forall|i: int| 0 <= i < dedup_first(v).len() ==> v.contains(#[trigger] dedup_first(v)[i]),
        forall|i: int, j: int|
            0 <= i < j < dedup_first(v).len() ==> first_idx(v, dedup_first(v)[i]) < first_idx(
                v,
                dedup_first(v)[j],
            ),
    decreases v.len(),
{
    if v.len() > 0 {
        let prefix = v.drop_last();
        let d = dedup_first(v);
        let dp = dedup_first(prefix);
        lemma_unique_order(prefix);
        assert(prefix.push(v.last()) =~= v);
        assert forall|i: int| 0 <= i < d.len() implies v.contains(#[trigger] d[i]) by {
            lemma_dedup_contains(v, d[i]);
            assert(d.contains(d[i]));
        }
        assert forall|i: int, j: int|
            0 <= i < j < d.len() implies first_idx(v, d[i]) < first_idx(v, d[j]) by {
            if prefix.contains(v.last()) {
                assert(d == dp);
                assert(prefix.contains(dp[i]) && prefix.contains(dp[j])) by {
                    lemma_dedup_contains(prefix, dp[i]);
                    lemma_dedup_contains(prefix, dp[j]);
                    assert(dp.contains(dp[i]) && dp.contains(dp[j]));
                }
                lemma_first_idx_push_contained(prefix, v.last(), dp[i]);
                lemma_first_idx_push_contained(prefix, v.last(), dp[j]);
            } else {
                assert(d == dp.push(v.last()));
                if j < dp.len() {
                    assert(prefix.contains(dp[i]) && prefix.contains(dp[j])) by {
                        lemma_dedup_contains(prefix, dp[i]);
                        lemma_dedup_contains(prefix, dp[j]);
                        assert(dp.contains(dp[i]) && dp.contains(dp[j]));
                    }
                    lemma_first_idx_push_contained(prefix, v.last(), dp[i]);
                    lemma_first_idx_push_contained(prefix, v.last(), dp[j]);
                } else {
                    assert(d[j] == v.last());
                    assert(prefix.contains(dp[i])) by {
                        lemma_dedup_contains(prefix, dp[i]);
                        assert(dp.contains(dp[i]));
                    }
                    lemma_first_idx_push_contained(prefix, v.last(), dp[i]);
                    lemma_first_idx_props(prefix, dp[i]);
                    lemma_first_idx_push_new(prefix, v.last());
                }
            }
        }
    }
}

/// Unique leaves no two equal lines; deduplicating a second time changes
/// nothing.
pub proof fn lemma_unique_laws(v: Seq<Seq<char>>)
    ensures
        forall|i: int, j: int|
            0 <= i < j < dedup_first(v).len() ==> dedup_first(v)[i] != dedup_first(v)[j],
        dedup_first(dedup_first(v)) == dedup_first(v),
{
    lemma_dedup_no_dups(v);
    lemma_dedup_idempotent(v);
}

/// For a text whose lines are all valid signed 64-bit integers and whose
/// arithmetic sum lies within the 64-bit range, the sum transformation
/// yields exactly the decimal text of that sum.
pub proof fn lemma_sum_law(s: Seq<char>)
    requires
        all_parse(split_lines(s)),
        i64::MIN <= math_sum(parsed_vals(split_lines(s))) <= i64::MAX,
    ensures
        apply_spec(IterTool::Sum, s) == Some(
            dec_str_i64(math_sum(parsed_vals(split_lines(s)))),
        ),
{
    crate::numeric::lemma_sum_exact(parsed_vals(split_lines(s)));
}

/// A text with a line that is no valid signed 64-bit integer makes the sum
/// transformation fail.
pub proof fn lemma_sum_fails(s: Seq<char>)
    requires
        !all_parse(split_lines(s)),
    ensures
        apply_spec(IterTool::Sum, s) is None,
{
}

/// Joining at least two lines starts with the first line, a newline, and
/// the joined rest.
proof fn lemma_join_front(v: Seq<Seq<char>>)
    requires
        v.len() >= 2,
    ensures
        join_nl(v) == v[0] + seq!['\n'] + join_nl(v.drop_first()),
    decreases v.len(),
{
    if v.len() == 2 {
        assert(v.drop_last() =~= seq![v[0]]);
        assert(v.drop_first() =~= seq![v[1]]);
        assert(join_nl(seq![v[0]]) == v[0]);
        assert(join_nl(seq![v[1]]) == v[1]);
    } else {
        lemma_join_front(v.drop_last());
        assert(v.drop_last()[0] == v[0]);
        assert(v.drop_last().drop_first() =~= v.drop_first().drop_last());
        assert(v.drop_first().last() == v.last());
        assert(v.drop_first().len() >= 2);
        assert((v[0] + seq!['\n'] + join_nl(v.drop_first().drop_last())) + seq!['\n'] + v.last()
            =~= v[0] + seq!['\n'] + (join_nl(v.drop_first().drop_last()) + seq!['\n'] + v.last()));
    }
}

/// Splitting the join of lines that hold no newline, are non-empty, and do
/// not end in a carriage return before another line recovers the lines.
proof fn lemma_split_join_roundtrip(v: Seq<Seq<char>>)
    requires
        forall|i: int, k: int| 0 <= i < v.len() && 0 <= k < v[i].len() ==> v[i][k] != '\n',
        forall|i: int| 0 <= i < v.len() ==> v[i].len() > 0,
        forall|i: int| 0 <= i < v.len() - 1 ==> v[i].last() != '\r',
    ensures
        split_lines(join_nl(v)) == v,
    decreases v.len(),
{
    if v.len() == 0 {
        assert(split_keep_nl(join_nl(v)) =~= Seq::<Seq<char>>::empty());
        assert(split_lines(join_nl(v)) =~= v);
    } else if v.len() == 1 {
        assert(join_nl(v) == v[0]);
        assert(forall|k: int| 0 <= k < v[0].len() ==> v[0][k] != '\n');
        lemma_split_whole(v[0]);
        assert(chomp(v[0]) == v[0]);
        assert(split_lines(v[0]) =~= seq![v[0]]);
        assert(seq![v[0]] =~= v);
    } else {
        lemma_join_front(v);
        let line = v[0].push('\n');
        let rest = join_nl(v.drop_first());
        assert(v[0] + seq!['\n'] =~= line);
        assert(join_nl(v) =~= line + rest);
        assert(forall|k: int| 0 <= k < line.len() - 1 ==> line[k] != '\n');
        lemma_split_head(line, rest);
        assert forall|i: int, k: int|
            0 <= i < v.drop_first().len() && 0 <= k < v.drop_first()[i].len() implies v.drop_first(
        )[i][k] != '\n' by {
            assert(v[i + 1][k] != '\n');
        }
        assert forall|i: int| 0 <= i < v.drop_first().len() implies v.drop_first()[i].len() > 0 by {
            assert(v[i + 1].len() > 0);
        }
        assert forall|i: int| 0 <= i < v.drop_first().len() - 1 implies v.drop_first()[i].last()
            != '\r' by {
            assert(v[i + 1].last() != '\r');
        }
        lemma_split_join_roundtrip(v.drop_first());
        assert(line.drop_last() =~= v[0]);
        assert(chomp(line) == v[0]);
        assert(split_lines(line + rest) =~= seq![chomp(line)] + split_lines(rest));
        assert(seq![v[0]] + v.drop_first() =~= v);
    }
}

/// Every piece of a split is non-empty and holds a newline only as its
/// final character.
proof fn lemma_split_piece_shape(s: Seq<char>)
    ensures
        forall|i: int| 0 <= i < split_keep_nl(s).len() ==> split_keep_nl(s)[i].len() > 0,
        forall|i: int, k: int|
            0 <= i < split_keep_nl(s).len() && 0 <= k < split_keep_nl(s)[i].len() - 1
                ==> split_keep_nl(s)[i][k] != '\n',
    decreases s.len(),
{
    if s.len() > 0 {
        lemma_first_nl(s);
        let f = first_nl(s);
        if f < s.len() {
            lemma_split_piece_shape(s.subrange(f + 1, s.len() as int));
            let p = split_keep_nl(s);
            let head = s.subrange(0, f + 1);
            let tail = split_keep_nl(s.subrange(f + 1, s.len() as int));
            assert forall|i: int, k: int|
                0 <= i < p.len() && 0 <= k < p[i].len() - 1 implies p[i][k] != '\n' by {
                if i == 0 {
                    assert(p[0] == head);
                    assert(head[k] == s[k]);
                } else {
                    assert(p[i] == tail[i - 1]);
                }
            }
        }
    }
}

/// No line of a text, once its terminator is removed, holds a newline.
proof fn lemma_lines_no_nl(s: Seq<char>)
    ensures
        forall|i: int, k: int|
            0 <= i < split_lines(s).len() && 0 <= k < split_lines(s)[i].len() ==> split_lines(
                s,
            )[i][k] != '\n',
{
    lemma_split_piece_shape(s);
    assert forall|i: int, k: int|
        0 <= i < split_lines(s).len() && 0 <= k < split_lines(s)[i].len() implies split_lines(
        s,
    )[i][k] != '\n' by {
        let p = split_keep_nl(s)[i];
        assert(split_lines(s)[i] == chomp(p));
        if p.len() > 0 && p.last() == '\n' {
            let q = p.drop_last();
            if q.len() > 0 && q.last() == '\r' {
                assert(chomp(p)[k] == p[k]);
            } else {
                assert(chomp(p)[k] == p[k]);
            }
        } else {
            assert(chomp(p)[k] == p[k]);
            assert(k != p.len() - 1 || p[k] != '\n');
        }
    }
}

/// Unique is idempotent: applying it to its own output changes nothing.
/// This holds of texts whose lines are non-empty and never end in a
/// carriage return before a following line; elsewhere rejoining lines can
/// lose a trailing empty line or a carriage return that stood before a
/// newline.
pub proof fn lemma_unique_idempotent_text(s: Seq<char>)
    requires
        forall|i: int| 0 <= i < split_lines(s).len() ==> split_lines(s)[i].len() > 0,
        forall|i: int|
            0 <= i < split_lines(s).len() - 1 ==> split_lines(s)[i].last() != '\r',
    ensures
        apply_spec(IterTool::Unique, join_nl(dedup_first(split_lines(s)))) == apply_spec(
            IterTool::Unique,
            s,
        ),
{
    let l = split_lines(s);
    let d = dedup_first(l);
    lemma_lines_no_nl(s);
    assert forall|i: int| 0 <= i < d.len() implies l.contains(#[trigger] d[i]) by {
        lemma_dedup_contains(l, d[i]);
        assert(d.contains(d[i]));
    }
    assert forall|i: int, k: int| 0 <= i < d.len() && 0 <= k < d[i].len() implies d[i][k]
        != '\n' by {
        let j = choose|j: int| 0 <= j < l.len() && l[j] == d[i];
        assert(l[j][k] != '\n');
    }
    assert forall|i: int| 0 <= i < d.len() implies d[i].len() > 0 by {
        let j = choose|j: int| 0 <= j < l.len() && l[j] == d[i];
        assert(l[j].len() > 0);
    }
    lemma_dedup_no_dups(l);
    assert forall|i: int| 0 <= i < d.len() - 1 implies d[i].last() != '\r' by {
        lemma_unique_order(l);
        let fi = first_idx(l, d[i]);
        let fj = first_idx(l, d[d.len() - 1]);
        lemma_first_idx_props(l, d[i]);
        lemma_first_idx_props(l, d[d.len() - 1]);
        assert(fi < fj <= l.len() - 1);
        assert(l[fi] == d[i]);
        assert(l[fi].last() != '\r');
    }
    lemma_split_join_roundtrip(d);
    lemma_dedup_of_distinct(d);
}

/// A per-line transformation succeeds on every source, so for those the
/// concatenation law below holds with nothing to require.
pub proof fn lemma_per_line_total(t: IterTool, srcs: Seq<Seq<char>>)
    requires
        crate::tool::spec_by_lines(t),
    ensures
        sources_ok(t, srcs),
{
}

/// Concatenation law: running over sources `s1` followed by `s2` writes
/// the output over `s1` and then the output over `s2`, provided the
/// transformation succeeds on all of `s1`; no state leaks across sources.
pub proof fn lemma_run_concat(t: IterTool, s1: Seq<Seq<char>>, s2: Seq<Seq<char>>)
    requires
        sources_ok(t, s1),
    ensures
        run_output(t, s1 + s2) == run_output(t, s1) + run_output(t, s2),
    decreases s1.len(),
{
    if s1.len() == 0 {
        assert(s1 + s2 =~= s2);
        assert(run_output(t, s1) =~= Seq::<char>::empty());
        assert(run_output(t, s1) + run_output(t, s2) =~= run_output(t, s2));
    } else {
        assert((s1 + s2)[0] == s1[0]);
        assert(source_output(t, s1[0]) is Some);
        assert(forall|i: int|
            0 <= i < s1.drop_first().len() ==> source_output(t, s1.drop_first()[i]) is Some);
        lemma_run_concat(t, s1.drop_first(), s2);
        assert((s1 + s2).drop_first() =~= s1.drop_first() + s2);
        let o = source_output(t, s1[0]).unwrap();
        assert(o + (run_output(t, s1.drop_first()) + run_output(t, s2)) =~= (o + run_output(
            t,
            s1.drop_first(),
        )) + run_output(t, s2));
    }
}

} // verus!
