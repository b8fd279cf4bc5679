use crate::tool::{
    apply_spec, first_bad_line, spec_by_lines, spec_removes_newline, ContentError, IterTool,
};
use crate::text::{split_keep_nl, split_keep_nl_str, split_lines};
use vstd::prelude::*;

verus! {

/// What the applicator writes for one line in per-line mode: the
/// transformed line, and a newline of its own where the transformation
/// stripped the original one.
pub open spec fn line_output(t: IterTool, piece: Seq<char>) -> Seq<char>
    recommends
        spec_by_lines(t),
{
    apply_spec(t, piece).unwrap() + if spec_removes_newline(t) {
        seq!['\n']
    } else {
        Seq::<char>::empty()
    }
}

/// What the applicator writes for a source's lines in per-line mode.
pub open spec fn lines_output(t: IterTool, pieces: Seq<Seq<char>>) -> Seq<char>
    decreases pieces.len(),
{
    if pieces.len() == 0 {
        Seq::empty()
    } else {
        lines_output(t, pieces.drop_last()) + line_output(t, pieces.last())
    }
}

/// What the applicator writes for one source: in per-line mode each line's
/// output in turn; in batch mode the transformed whole content followed by
/// one newline. `None` only where the transformation itself fails.
pub open spec fn source_output(t: IterTool, content: Seq<char>) -> Option<Seq<char>> {
    if spec_by_lines(t) {
        Some(lines_output(t, split_keep_nl(content)))
    } else {
        match apply_spec(t, content) {
            Some(o) => Some(o + seq!['\n']),
            None => None,
        }
    }
}

/// Apply the transformation to one source's whole content, yielding what
/// the applicator writes for that source.
pub fn apply_source(t: &IterTool, content: &str) -> (r: Result<String, ContentError>)
    ensures
        match r {
            Ok(out) => source_output(*t, content@) == Some(out@),
            Err(e) => {
                &&& source_output(*t, content@) is None
                &&& *t is Sum
                &&& exists|i: int|
                    first_bad_line(split_lines(content@), i) && e.line@ == split_lines(content@)[i]
            },
        },
{
    if t.is_by_lines() {
        let pieces = split_keep_nl_str(content);
        let mut acc = String::new();
        let mut i: usize = 0;
        proof {
            assert(split_keep_nl(content@).take(0) =~= Seq::<Seq<char>>::empty());
        }
        while i < pieces.len()
            invariant
                0 <= i <= pieces@.len(),
                pieces.deep_view() == split_keep_nl(content@),
                pieces.deep_view().len() == pieces@.len(),
                spec_by_lines(*t),
                acc@ == lines_output(*t, split_keep_nl(content@).take(i as int)),
            decreases pieces@.len() - i,
        {
            let ghost dv = pieces.deep_view();
            proof {
                assert(pieces@[i as int]@ == dv[i as int]);
            }
            let res = t.apply_to(pieces[i].as_str());
            let piece_out = match res {
                Ok(o) => o,
                Err(e) => {
                    proof {
                        assert(false);
                    }
                    return Err(e);
                },
            };
            acc.append(piece_out.as_str());
            if t.removes_newline() {
                acc.append("\n");
                proof {
                    reveal_strlit("\n");
                    assert("\n"@ =~= seq!['\n']);
                }
            }
            proof {
                assert(dv.take(i + 1).drop_last() =~= dv.take(i as int));
                assert(dv.take(i + 1).last() == dv[i as int]);
                assert(acc@ =~= lines_output(*t, dv.take(i + 1)));
            }
            i = i + 1;
        }
        proof {
            assert(split_keep_nl(content@).take(pieces.deep_view().len() as int) =~= split_keep_nl(
                content@,
            ));
        }
        Ok(acc)
    } else {
        match t.apply_to(content) {
            Ok(out) => {
                let mut out = out;
                out.append("\n");
                proof {
                    reveal_strlit("\n");
                    assert("\n"@ =~= seq!['\n']);
                }
                Ok(out)
            },
            Err(e) => Err(e),
        }
    }
}

/// Whether the transformation succeeds on every source.
pub open spec fn sources_ok(t: IterTool, srcs: Seq<Seq<char>>) -> bool {
    forall|i: int| 0 <= i < srcs.len() ==> source_output(t, srcs[i]) is Some
}

/// Everything the applicator writes for the sources, in order: each
/// source's output up to, and not including, the first source on which the
/// transformation fails.
pub open spec fn run_output(t: IterTool, srcs: Seq<Seq<char>>) -> Seq<char>
    decreases srcs.len(),
{
    if srcs.len() == 0 {
        Seq::empty()
    } else {
        match source_output(t, srcs[0]) {
            Some(o) => o + run_output(t, srcs.drop_first()),
            None => Seq::empty(),
        }
    }
}

/// Index of the first source on which the transformation fails.
pub open spec fn first_failing_source(t: IterTool, srcs: Seq<Seq<char>>, i: int) -> bool {
    &&& 0 <= i < srcs.len()
    &&& source_output(t, srcs[i]) is None
    &&& forall|k: int| 0 <= k < i ==> source_output(t, srcs[k]) is Some
}

/// Appending a source extends the output by that source's own output,
/// provided every earlier source succeeds.
pub proof fn lemma_run_output_push(t: IterTool, srcs: Seq<Seq<char>>, x: Seq<char>)
    requires
        sources_ok(t, srcs),
    ensures
        run_output(t, srcs.push(x)) == run_output(t, srcs) + (match source_output(t, x) {
            Some(o) => o,
            None => Seq::<char>::empty(),
        }),
    decreases srcs.len(),
{
    if srcs.len() == 0 {
        assert(srcs.push(x)[0] == x);
        assert(srcs.push(x).drop_first() =~= srcs);
        assert(run_output(t, srcs) =~= Seq::<char>::empty());
        match source_output(t, x) {
            Some(o) => {
                assert(run_output(t, srcs.push(x)) == o + run_output(t, srcs));
                assert(o + Seq::<char>::empty() =~= Seq::<char>::empty() + o);
            },
            None => {
                assert(run_output(t, srcs.push(x)) =~= run_output(t, srcs));
            },
        }
    } else {
        assert(source_output(t, srcs[0]) is Some);
        assert(forall|i: int|
            0 <= i < srcs.drop_first().len() ==> source_output(t, srcs.drop_first()[i]) is Some);
        lemma_run_output_push(t, srcs.drop_first(), x);
        assert(srcs.push(x)[0] == srcs[0]);
        assert(srcs.push(x).drop_first() =~= srcs.drop_first().push(x));
        assert(run_output(t, srcs.push(x)) =~= run_output(t, srcs) + (match source_output(t, x) {
            Some(o) => o,
            None => Seq::<char>::empty(),
        }));
    }
}

/// Output stops at the first failing source: nothing after it is written.
pub proof fn lemma_run_output_stops(t: IterTool, srcs: Seq<Seq<char>>, i: int)
    requires
        0 <= i < srcs.len(),
        source_output(t, srcs[i]) is None,
        forall|k: int| 0 <= k < i ==> source_output(t, srcs[k]) is Some,
    ensures
        run_output(t, srcs) == run_output(t, srcs.take(i)),
    decreases i,
{
    if i == 0 {
        assert(srcs.take(0) =~= Seq::<Seq<char>>::empty());
    } else {
        assert(source_output(t, srcs[0]) is Some);
        assert(srcs.drop_first()[i - 1] == srcs[i]);
        assert(forall|k: int|
            0 <= k < i - 1 ==> source_output(t, srcs.drop_first()[k]) is Some);
        lemma_run_output_stops(t, srcs.drop_first(), i - 1);
        assert(srcs.take(i)[0] == srcs[0]);
        assert(srcs.take(i).drop_first() =~= srcs.drop_first().take(i - 1));
        assert(run_output(t, srcs) =~= run_output(t, srcs.take(i)));
    }
}

/// Apply the transformation to the sources in order, concatenating their
/// outputs; a transformation failure ends the run, and what earlier
/// sources produced is kept beside the error.
pub fn run_sources(t: &IterTool, sources: &Vec<String>) -> (r: (String, Option<ContentError>))
    ensures
        r.0@ == run_output(*t, sources.deep_view()),
        r.1 is None <==> sources_ok(*t, sources.deep_view()),
        match r.1 {
            None => true,
            Some(e) => exists|i: int|
                first_failing_source(*t, sources.deep_view(), i) && exists|j: int|
                    first_bad_line(split_lines(sources.deep_view()[i]), j) && e.line@
                        == split_lines(sources.deep_view()[i])[j],
        },
{
    let ghost dv = sources.deep_view();
    let mut acc = String::new();
    let mut i: usize = 0;
    proof {
        assert(dv.take(0) =~= Seq::<Seq<char>>::empty());
    }
    while i < sources.len()
        invariant
            0 <= i <= sources@.len(),
            dv == sources.deep_view(),
            dv.len() == sources@.len(),
            forall|k: int| 0 <= k < i ==> source_output(*t, dv[k]) is Some,
            acc@ == run_output(*t, dv.take(i as int)),
        decreases sources@.len() - i,
    {
        proof {
            assert(sources@[i as int]@ == dv[i as int]);
        }
        match apply_source(t, sources[i].as_str()) {
            Ok(out) => {
                proof {
                    assert(sources_ok(*t, dv.take(i as int)));
                    lemma_run_output_push(*t, dv.take(i as int), dv[i as int]);
                    assert(dv.take(i as int).push(dv[i as int]) =~= dv.take(i + 1));
                }
                acc.append(out.as_str());
                i = i + 1;
            },
            Err(e) => {
                proof {
                    lemma_run_output_stops(*t, dv, i as int);
                    assert(first_failing_source(*t, dv, i as int));
                }
                return (acc, Some(e));
            },
        }
    }
    proof {
        assert(dv.take(dv.len() as int) =~= dv);
    }
    (acc, None)
}

} // verus!
