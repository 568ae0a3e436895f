use vstd::prelude::*;

pub mod baseline;
pub mod rayon_mmap_string;
pub mod rayon_string;

use crate::accum::{acc_wf, mean_of, AccModel};
use crate::results::{
    agg, as_map, lemma_agg_concat, lemma_sorted_entries_unique, sorted_strict, Results,
};
use crate::text::{
    find_byte, first_at, lemma_lines_count, lemma_lines_split, lines_of, parse_line,
    parse_line_spec, parses_ok, record_of_line, records_of, render_tenths, NL,
};
use crate::Error;

verus! {

/// How many chunks the chunked strategies split the corpus into.
pub const CHUNK_PARTS: usize = 8;

/// One formatted summary entry: `name=min/mean/max`.
pub open spec fn entry_render(e: (Seq<u8>, AccModel)) -> Seq<u8> {
    e.0 + seq![61u8] + render_tenths(e.1.min) + seq![47u8] + render_tenths(mean_of(e.1))
        + seq![47u8] + render_tenths(e.1.max)
}

/// The comma-joined entry list.
pub open spec fn body_render(es: Seq<(Seq<u8>, AccModel)>) -> Seq<u8>
    decreases es.len(),
{
    if es.len() == 0 {
        Seq::empty()
    } else if es.len() == 1 {
        entry_render(es[0])
    } else {
        body_render(es.drop_last()) + seq![44u8, 32u8] + entry_render(es.last())
    }
}

/// The whole formatted summary: `{` entries `}`.
pub open spec fn format_entries(es: Seq<(Seq<u8>, AccModel)>) -> Seq<u8> {
    seq![123u8] + body_render(es) + seq![125u8]
}

/// The one formatted output a corpus admits: the entries are pinned by the
/// aggregation map (strictly sorted entries describing a map are unique),
/// so every strategy renders this very byte sequence.
pub open spec fn output_of(d: Seq<u8>) -> Seq<u8> {
    format_entries(
        choose|es: Seq<(Seq<u8>, AccModel)>| sorted_strict(es) && as_map(es) == agg(records_of(d)),
    )
}

/// An aggregation strategy: it consumes the corpus bytes and produces the
/// per-entity result map.  Every strategy is total on well-formed corpora
/// and fails exactly on a malformed line.
pub trait Processor {
    fn process(&self, data: &[u8]) -> (r: Result<Results, Error>)
        ensures
            match r {
                Ok(m) => m.wf() && m.map_of() == agg(records_of(data@)) && parses_ok(data@),
                Err(e) => e == Error::Parse && !parses_ok(data@),
            },
    ;
}

/// Runs a strategy over the corpus bytes and formats its result map,
/// sorted by entity name.  All strategies return the same bytes: the
/// output is a function of the corpus alone.
pub fn process<P: Processor>(processor: P, data: &[u8]) -> (r: Result<Vec<u8>, Error>)
    ensures
        match r {
            Ok(out) => parses_ok(data@) && out@ == output_of(data@),
            Err(e) => e == Error::Parse && !parses_ok(data@),
        },
{
    match processor.process(data) {
        Ok(m) => {
            proof {
                assert(sorted_strict(m@) && as_map(m@) == agg(records_of(data@)));
                let es = choose|es: Seq<(Seq<u8>, AccModel)>|
                    sorted_strict(es) && as_map(es) == agg(records_of(data@));
                lemma_sorted_entries_unique(es, m@);
            }
            Ok(format_results(&m))
        },
        Err(e) => Err(e),
    }
}

/// Renders a result map as `{name=min/mean/max, ...}`, entries in their
/// sorted order, every numeric field with exactly one fractional digit.
#[verifier::rlimit(60)]
#[verifier::loop_isolation(false)]
pub fn format_results(r: &Results) -> (out: Vec<u8>)
    requires
        r.wf(),
    ensures
        out@ == format_entries(r@),
{
    let mut out: Vec<u8> = Vec::new();
    out.push(123);
    proof {
        assert(r@.take(0) =~= Seq::<(Seq<u8>, AccModel)>::empty());
        assert(out@ =~= seq![123u8] + body_render(r@.take(0)));
    }
    let mut i: usize = 0;
    while i < r.entries.len()
        invariant
            i <= r.entries@.len(),
            out@ == seq![123u8] + body_render(r@.take(i as int)),
        decreases r.entries@.len() - i,
    {
        proof {
            assert(acc_wf(r@[i as int].1));
            assert(r@[i as int] == r.entries@[i as int]@);
            crate::accum::lemma_mean_in_range(r@[i as int].1);
        }
        if i > 0 {
            out.push(44);
            out.push(32);
        }
        let ghost mid = out@;
        let e = &r.entries[i];
        let mut k: usize = 0;
        while k < e.name.len()
            invariant
                k <= e.name@.len(),
                out@ == mid + e.name@.take(k as int),
            decreases e.name@.len() - k,
        {
            out.push(e.name[k]);
            k = k + 1;
            proof {
                assert(mid + e.name@.take(k as int) =~= (mid + e.name@.take(k - 1)).push(
                    e.name@[k - 1],
                ));
            }
        }
        proof {
            assert(e.name@.take(e.name@.len() as int) =~= e.name@);
        }
        out.push(61);
        crate::text::push_tenths(&mut out, e.result.min);
        out.push(47);
        let mean = e.result.mean();
        crate::text::push_tenths(&mut out, mean);
        out.push(47);
        crate::text::push_tenths(&mut out, e.result.max);
        i = i + 1;
        proof {
            assert(out@ =~= mid + entry_render(r@[i - 1]));
            assert(r@.take(i as int).drop_last() =~= r@.take(i - 1));
            assert(r@.take(i as int).last() == r@[i - 1]);
            if i == 1 {
                assert(body_render(r@.take(1)) == entry_render(r@[0]));
                assert(out@ =~= seq![123u8] + body_render(r@.take(i as int)));
            } else {
                assert(body_render(r@.take(i as int)) == body_render(r@.take(i - 1)) + seq![
                    44u8,
                    32u8,
                ] + entry_render(r@[i - 1]));
                assert(out@ =~= seq![123u8] + body_render(r@.take(i as int)));
            }
        }
    }
    out.push(125);
    proof {
        assert(r@.take(r@.len() as int) =~= r@);
        assert(out@ =~= format_entries(r@));
    }
    out
}

/// The sequential scan: folds every line of `data[start..end]` into one
/// result map, streaming line by line.  On success the map describes
/// exactly the aggregation of the window's records; a malformed line is a
/// parse error, and the window then has a line that does not parse.
#[verifier::loop_isolation(false)]
pub fn fold_range(data: &[u8], start: usize, end: usize) -> (r: Result<Results, Error>)
    requires
        start <= end <= data@.len(),
    ensures
        match r {
            Ok(m) => {
                &&& m.wf()
                &&& m.map_of() == agg(records_of(data@.subrange(start as int, end as int)))
                &&& parses_ok(data@.subrange(start as int, end as int))
                &&& m.records <= end - start
            },
            Err(e) => e == Error::Parse && !parses_ok(
                data@.subrange(start as int, end as int),
            ),
        },
{
    let ghost w = data@.subrange(start as int, end as int);
    let ghost ls = lines_of(w);
    let ghost rs = records_of(w);
    proof {
        lemma_lines_count(w);
        assert(w.skip(0) =~= w);
        assert(rs.take(0) =~= Seq::<(Seq<u8>, int)>::empty());
    }
    let mut m = Results::new();
    let mut p: usize = start;
    while p < end
        invariant
            start <= p <= end,
            m.wf(),
            m.records as int <= ls.len(),
            lines_of(w.skip(p - start)) =~= ls.skip(m.records as int),
            m.map_of() == agg(rs.take(m.records as int)),
            forall|i: int| 0 <= i < m.records ==> parse_line_spec(#[trigger] ls[i]) is Some,
        decreases end - p,
    {
        let ghost c = m.records as int;
        let ghost p0 = p as int;
        let ghost rem = w.skip(p - start);
        proof {
            assert(rem =~= data@.subrange(p as int, end as int));
            lemma_lines_count(rem);
            assert(ls.skip(c).len() >= 1);
        }
        let q = find_byte(data, p, end, NL);
        proof {
            crate::text::lemma_first_at(rem, NL);
            assert(first_at(rem, NL) == q - p);
            if q < end {
                assert(lines_of(rem) == seq![rem.take(q - p)] + lines_of(rem.skip(q - p + 1)));
            } else {
                assert(lines_of(rem) == seq![rem]);
            }
            assert(ls[c] == lines_of(rem)[0]);
            assert(rem.take(q - p) =~= data@.subrange(p as int, q as int));
            if q == end {
                assert(rem =~= data@.subrange(p as int, q as int));
            }
            assert(ls[c] =~= data@.subrange(p as int, q as int));
        }
        match parse_line(data, p, q) {
            Ok(pair) => {
                let (name, value) = pair;
                proof {
                    assert(parse_line_spec(ls[c]) == Some((name@, value as int)));
                    assert(rs[c] == record_of_line(ls[c]));
                    assert(rs.take(c + 1).drop_last() =~= rs.take(c));
                    assert(rs.take(c + 1).last() == rs[c]);
                    assert(m.records < u64::MAX) by {
                        assert(c < ls.len());
                        assert(ls.len() <= w.len());
                    }
                }
                m.add(name, value);
                if q < end {
                    p = q + 1;
                } else {
                    p = end;
                }
                proof {
                    assert(ls.skip(c) =~= lines_of(rem));
                    assert(ls.skip(c + 1) =~= lines_of(rem).skip(1));
                    if q < end {
                        assert(lines_of(rem) == seq![rem.take(q - p0)] + lines_of(
                            rem.skip(q - p0 + 1),
                        ));
                        assert(rem.skip(q - p0 + 1) =~= w.skip(p - start));
                        assert(lines_of(rem).skip(1) =~= lines_of(w.skip(p - start)));
                    } else {
                        assert(lines_of(rem) == seq![rem]);
                        assert(w.skip(p - start) =~= Seq::<u8>::empty());
                        assert(lines_of(rem).skip(1) =~= Seq::<Seq<u8>>::empty());
                    }
                    assert(lines_of(w.skip(p - start)) =~= ls.skip(m.records as int));
                }
            },
            Err(e) => {
                proof {
                    assert(parse_line_spec(ls[c]) is None);
                    assert(!parses_ok(w));
                }
                return Err(e);
            },
        }
    }
    proof {
        assert(w.skip(end - start) =~= Seq::<u8>::empty());
        assert(ls.skip(m.records as int).len() == 0);
        assert(m.records as int == ls.len());
        assert(rs.take(m.records as int) =~= rs);
    }
    Ok(m)
}

/// The split/fold/reduce scan shared by the chunked strategies: the corpus
/// is cut into `parts` contiguous chunks at line boundaries, each chunk is
/// folded on its own, and the chunk maps are reduced with the merge
/// algebra.  By the merge homomorphism the outcome is exactly the
/// sequential aggregation of the whole corpus.
#[verifier::loop_isolation(false)]
pub fn fold_chunked(data: &[u8], parts: usize) -> (r: Result<Results, Error>)
    requires
        parts >= 1,
    ensures
        match r {
            Ok(m) => m.wf() && m.map_of() == agg(records_of(data@)) && parses_ok(data@),
            Err(e) => e == Error::Parse && !parses_ok(data@),
        },
{
    let len = data.len();
    let chunk = if len / parts == 0 {
        1
    } else {
        len / parts
    };
    let mut m = Results::new();
    let mut p: usize = 0;
    proof {
        assert(data@.subrange(0, 0) =~= Seq::<u8>::empty());
        assert(agg(records_of(data@.subrange(0, 0))) =~= Map::<Seq<u8>, AccModel>::empty());
    }
    while p < len
        invariant
            0 <= p <= len == data@.len(),
            chunk >= 1,
            p == 0 || data@[p - 1] == NL || p == len,
            m.wf(),
            m.records <= p,
            m.map_of() == agg(records_of(data@.subrange(0, p as int))),
            parses_ok(data@.subrange(0, p as int)),
        decreases len - p,
    {
        let t = if chunk > len - p {
            len
        } else {
            p + chunk
        };
        let q = if t >= len {
            len
        } else {
            find_byte(data, t, len, NL)
        };
        let b = if q < len {
            q + 1
        } else {
            len
        };
        proof {
            assert(p < b <= len);
            assert(b == len || data@[b - 1] == NL);
        }
        let ghost pre = data@.subrange(0, p as int);
        let ghost cw = data@.subrange(p as int, b as int);
        let ghost preb = data@.subrange(0, b as int);
        proof {
            lemma_lines_split(preb, p as int);
            assert(preb.take(p as int) =~= pre);
            assert(preb.skip(p as int) =~= cw);
            assert(lines_of(preb) == lines_of(pre) + lines_of(cw));
            assert(records_of(preb) =~= records_of(pre) + records_of(cw)) by {
                assert(records_of(preb).len() == lines_of(preb).len());
                assert(forall|i: int|
                    0 <= i < lines_of(pre).len() ==> #[trigger] lines_of(preb)[i] == lines_of(
                        pre,
                    )[i]);
                assert(forall|i: int|
                    lines_of(pre).len() <= i < lines_of(preb).len()
                        ==> #[trigger] lines_of(preb)[i] == lines_of(cw)[i - lines_of(
                        pre,
                    ).len()]);
            }
        }
        match fold_range(data, p, b) {
            Ok(part) => {
                proof {
                    lemma_agg_concat(records_of(pre), records_of(cw));
                    assert(m.records + part.records <= u64::MAX) by {
                        assert(m.records <= p && part.records <= b - p);
                    }
                }
                m = m.merge(&part);
                proof {
                    assert(m.map_of() == agg(records_of(preb)));
                    assert(parses_ok(preb)) by {
                        assert forall|i: int| 0 <= i < lines_of(preb).len() implies parse_line_spec(
                            #[trigger] lines_of(preb)[i],
                        ) is Some by {
                            if i < lines_of(pre).len() {
                                assert(lines_of(preb)[i] == lines_of(pre)[i]);
                            } else {
                                assert(lines_of(preb)[i] == lines_of(cw)[i - lines_of(
                                    pre,
                                ).len()]);
                            }
                        }
                    }
                }
                p = b;
            },
            Err(e) => {
                proof {
                    assert(!parses_ok(cw));
                    let i = choose|i: int|
                        0 <= i < lines_of(cw).len() && !(parse_line_spec(
                            #[trigger] lines_of(cw)[i],
                        ) is Some);
                    lemma_lines_split(data@, b as int);
                    lemma_lines_split(data@.take(b as int), p as int);
                    assert(data@.take(b as int) =~= preb);
                    assert(data@.take(b as int).take(p as int) =~= pre);
                    assert(data@.take(b as int).skip(p as int) =~= cw);
                    let off = lines_of(pre).len() + i;
                    assert(lines_of(data@)[off] == lines_of(cw)[i]);
                    assert(!parses_ok(data@));
                }
                return Err(e);
            },
        }
    }
    proof {
        assert(data@.subrange(0, len as int) =~= data@);
    }
    Ok(m)
}

} // verus!
