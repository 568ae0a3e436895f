use vstd::arithmetic::div_mod::lemma_fundamental_div_mod;
use vstd::prelude::*;
use vstd::string::StringSliceAdditionalSpecFns;

use crate::accum::value_ok;
use crate::text::{
    find_byte, first_at, lemma_lines_append, lemma_lines_count, lemma_lines_no_nl, lines_of,
    parse_row, parse_row_spec, render_tenths, row_of_line, row_records_of, rows_ok, NL, SEMI,
};
use crate::{sample_below, Error, Station, NOISE_SPAN};

verus! {

/// A worker flushes its local buffer into the shared sink once the buffer
/// reaches this many bytes, under the threshold-flush strategy.
pub const MIN_BUFFER: usize = 65536;

/// The reference catalog: every loaded station, in file order, shared
/// read-only by all generator workers.
pub struct StationList {
    pub stations: Vec<Station>,
}

impl View for StationList {
    type V = Seq<(Seq<u8>, int)>;

    open spec fn view(&self) -> Seq<(Seq<u8>, int)> {
        Seq::new(
            self.stations@.len(),
            |i: int| (self.stations@[i].city@, self.stations@[i].temp as int),
        )
    }
}

impl StationList {
    pub open spec fn wf(self) -> bool {
        forall|i: int| 0 <= i < self.stations@.len() ==> (#[trigger] self.stations@[i]).wf()
    }

    /// Loads the catalog from the raw bytes of the reference table: one
    /// header-free `name;baseline_value` row per line.  A baseline may be
    /// spelled as a plain integer or with exactly one fractional digit;
    /// precision finer than tenths is refused as malformed, not rounded,
    /// since the value model holds tenths exactly.  Fails with a parse
    /// error exactly when some row is malformed.
    #[verifier::rlimit(60)]
    #[verifier::loop_isolation(false)]
    pub fn read(data: &[u8]) -> (r: Result<StationList, Error>)
        ensures
            match r {
                Ok(sl) => sl.wf() && sl@ == row_records_of(data@) && rows_ok(data@),
                Err(e) => e == Error::Parse && !rows_ok(data@),
            },
    {
        let ghost w = data@;
        let ghost ls = lines_of(w);
        let ghost rs = row_records_of(w);
        proof {
            lemma_lines_count(w);
            lemma_lines_no_nl(w);
            assert(w.skip(0) =~= w);
        }
        let end = data.len();
        let mut out = StationList { stations: Vec::new() };
        let mut p: usize = 0;
        while p < end
            invariant
                0 <= p <= end == data@.len(),
                out.stations@.len() <= ls.len(),
                lines_of(w.skip(p as int)) =~= ls.skip(out.stations@.len() as int),
                out@ =~= rs.take(out.stations@.len() as int),
                out.wf(),
                forall|i: int|
                    0 <= i < out.stations@.len() ==> parse_row_spec(#[trigger] ls[i]) is Some,
            decreases end - p,
        {
            let ghost c = out.stations@.len() as int;
            let ghost p0 = p as int;
            let ghost rem = w.skip(p as int);
            proof {
                assert(rem =~= data@.subrange(p as int, end as int));
                lemma_lines_count(rem);
                assert(ls.skip(c).len() >= 1);
            }
            let q = find_byte(data, p, end, NL);
            proof {
                crate::text::lemma_first_at(rem, NL);
                assert(first_at(rem, NL) == q - p);
                if q < end {
                    assert(lines_of(rem) == seq![rem.take(q - p0)] + lines_of(
                        rem.skip(q - p0 + 1),
                    ));
                } else {
                    assert(lines_of(rem) == seq![rem]);
                }
                assert(ls[c] == lines_of(rem)[0]);
                assert(rem.take(q - p0) =~= data@.subrange(p as int, q as int));
                if q == end {
                    assert(rem =~= data@.subrange(p as int, q as int));
                }
                assert(ls[c] =~= data@.subrange(p as int, q as int));
            }
            match parse_row(data, p, q) {
                Ok(pair) => {
                    let (name, value) = pair;
                    proof {
                        assert(parse_row_spec(ls[c]) == Some((name@, value as int)));
                        assert(rs[c] == row_of_line(ls[c]));
                        // the name is a piece of a line, so it holds no newline
                        let l = ls[c];
                        let s = first_at(l, SEMI);
                        crate::text::lemma_first_at(l, SEMI);
                        assert(s < l.len());
                        assert(name@ == l.take(s));
                        assert forall|i: int| 0 <= i < name@.len() implies name@[i] != NL by {
                            assert(name@[i] == l.take(s)[i]);
                            assert(l.take(s)[i] == l[i]);
                            assert(l[i] != NL);
                        }
                    }
                    let st = Station { city: name, temp: value };
                    out.stations.push(st);
                    if q < end {
                        p = q + 1;
                    } else {
                        p = end;
                    }
                    proof {
                        assert(ls.skip(c) =~= lines_of(rem));
                        assert(ls.skip(c + 1) =~= lines_of(rem).skip(1));
                        if q < end {
                            assert(rem.skip(q - p0 + 1) =~= w.skip(p as int));
                            assert(lines_of(rem).skip(1) =~= lines_of(w.skip(p as int)));
                        } else {
                            assert(lines_of(rem) == seq![rem]);
                            assert(w.skip(p as int) =~= Seq::<u8>::empty());
                            assert(lines_of(rem).skip(1) =~= Seq::<Seq<u8>>::empty());
                        }
                        assert(lines_of(w.skip(p as int)) =~= ls.skip(
                            out.stations@.len() as int,
                        ));
                        assert(out@ =~= rs.take(out.stations@.len() as int));
                    }
                },
                Err(e) => {
                    proof {
                        assert(parse_row_spec(ls[c]) is None);
                    }
                    return Err(e);
                },
            }
        }
        proof {
            assert(w.skip(end as int) =~= Seq::<u8>::empty());
            assert(ls.skip(out.stations@.len() as int).len() == 0);
            assert(out.stations@.len() as int == ls.len());
            assert(rs.take(out.stations@.len() as int) =~= rs);
        }
        Ok(out)
    }

    /// A station chosen uniformly at random.  The catalog must not be
    /// empty: that is the caller's invariant to guarantee.
    pub fn rand_station(&self) -> (r: &Station)
        requires
            self.wf(),
            self@.len() > 0,
        ensures
            r.wf(),
            exists|i: int|
                0 <= i < self@.len() && r.city@ == (#[trigger] self@[i]).0 && r.temp as int
                    == self@[i].1,
    {
        let i = sample_below(self.stations.len());
        let r = &self.stations[i];
        proof {
            assert(r.city@ == self@[i as int].0 && r.temp as int == self@[i as int].1);
        }
        r
    }
}

/// One corpus line for entity `name` carrying `t` tenths.
pub open spec fn measurement_line(name: Seq<u8>, t: int) -> Seq<u8> {
    name + seq![SEMI] + render_tenths(t)
}

/// Whether `l` is a well-formed measurement line for some station of the
/// catalog: its name, a semicolon, and a representable value with exactly
/// one fractional digit that lies within the noise span of that station's
/// baseline.
pub open spec fn is_measurement_line(l: Seq<u8>, sl: Seq<(Seq<u8>, int)>) -> bool {
    exists|i: int, t: int|
        0 <= i < sl.len() && value_ok(t) && sl[i].1 - NOISE_SPAN <= t <= sl[i].1 + NOISE_SPAN
            && l == #[trigger] measurement_line(sl[i].0, t)
}

/// What every generation strategy owes: the corpus holds exactly `count`
/// lines, every one a measurement line of the catalog.
pub open spec fn corpus_ok(out: Seq<u8>, sl: Seq<(Seq<u8>, int)>, count: int) -> bool {
    &&& lines_of(out).len() == count
    &&& forall|j: int| 0 <= j < count ==> is_measurement_line(#[trigger] lines_of(out)[j], sl)
}

/// Appends `name;value\n` to the buffer.
pub fn push_line(out: &mut Vec<u8>, name: &Vec<u8>, t: i64)
    requires
        value_ok(t as int),
    ensures
        final(out)@ == old(out)@ + measurement_line(name@, t as int) + seq![NL],
{
    let mut k: usize = 0;
    while k < name.len()
        invariant
            k <= name@.len(),
            out@ == old(out)@ + name@.take(k as int),
        decreases name@.len() - k,
    {
        out.push(name[k]);
        k = k + 1;
        proof {
            assert(old(out)@ + name@.take(k as int) =~= (old(out)@ + name@.take(k - 1)).push(
                name@[k - 1],
            ));
        }
    }
    proof {
        assert(name@.take(name@.len() as int) =~= name@);
    }
    out.push(SEMI);
    crate::text::push_tenths(out, t);
    out.push(NL);
    proof {
        assert(final(out)@ =~= old(out)@ + measurement_line(name@, t as int) + seq![NL]);
    }
}

/// Appends `n` sampled records for random stations to the sink, each a
/// whole newline-terminated line.
#[verifier::loop_isolation(false)]
pub fn build_records(out: &mut Vec<u8>, n: usize, stations: &StationList)
    requires
        stations.wf(),
        stations@.len() > 0,
        old(out)@.len() == 0 || old(out)@.last() == NL,
    ensures
        lines_of(final(out)@).len() == lines_of(old(out)@).len() + n,
        forall|j: int|
            0 <= j < lines_of(old(out)@).len() ==> #[trigger] lines_of(final(out)@)[j]
                == lines_of(old(out)@)[j],
        forall|j: int|
            lines_of(old(out)@).len() <= j < lines_of(old(out)@).len() + n
                ==> is_measurement_line(#[trigger] lines_of(final(out)@)[j], stations@),
        final(out)@.len() == 0 || final(out)@.last() == NL,
{
    let ghost base = lines_of(old(out)@);
    let mut i: usize = 0;
    while i < n
        invariant
            i <= n,
            lines_of(out@).len() == base.len() + i,
            forall|j: int| 0 <= j < base.len() ==> #[trigger] lines_of(out@)[j] == base[j],
            forall|j: int|
                base.len() <= j < base.len() + i ==> is_measurement_line(
                    #[trigger] lines_of(out@)[j],
                    stations@,
                ),
            out@.len() == 0 || out@.last() == NL,
        decreases n - i,
    {
        let st = stations.rand_station();
        let v = st.measurement();
        let ghost pre = out@;
        let ghost line = measurement_line(st.city@, v as int);
        proof {
            crate::text::lemma_render_parses(v as int);
            assert forall|k: int| 0 <= k < line.len() implies line[k] != NL by {
                if k < st.city@.len() {
                    assert(line[k] == st.city@[k]);
                } else if k == st.city@.len() {
                    assert(line[k] == SEMI);
                } else {
                    assert(line[k] == render_tenths(v as int)[k - st.city@.len() - 1]);
                }
            }
        }
        push_line(out, &st.city, v);
        i = i + 1;
        proof {
            assert(out@ =~= pre + line.push(NL));
            lemma_lines_append(pre, line);
            assert(lines_of(out@) == lines_of(pre).push(line));
            assert(is_measurement_line(line, stations@)) by {
                let wi = choose|wi: int|
                    0 <= wi < stations@.len() && st.city@ == (#[trigger] stations@[wi]).0
                        && st.temp as int == stations@[wi].1;
                assert(stations@[wi].1 - NOISE_SPAN <= v as int <= stations@[wi].1 + NOISE_SPAN);
                assert(line == measurement_line(stations@[wi].0, v as int));
            }
        }
    }
}

/// The records a worker is assigned under round-robin dispatch of `count`
/// record indices to `t` workers: every worker gets the base share, and
/// the first `count % t` workers one more.
pub open spec fn quota_spec(count: int, t: int, w: int) -> int
    recommends
        t >= 1,
{
    count / t + if w < count % t {
        1int
    } else {
        0int
    }
}

/// The records assigned to workers `0 .. w` together.
pub open spec fn quota_sum(count: int, t: int, w: int) -> int
    decreases w,
{
    if w <= 0 {
        0
    } else {
        quota_sum(count, t, w - 1) + quota_spec(count, t, w - 1)
    }
}

pub proof fn lemma_quota_closed(count: int, t: int, w: int)
    requires
        t >= 1,
        count >= 0,
        0 <= w <= t,
    ensures
        quota_sum(count, t, w) == w * (count / t) + if w <= count % t {
            w
        } else {
            count % t
        },
    decreases w,
{
    assert(0 <= count % t < t && count / t >= 0) by (nonlinear_arith)
        requires
            t >= 1 && count >= 0,
    ;
    let q = count / t;
    let r = count % t;
    if w > 0 {
        lemma_quota_closed(count, t, w - 1);
        assert(w * q == (w - 1) * q + q) by (nonlinear_arith);
        assert(quota_sum(count, t, w) == quota_sum(count, t, w - 1) + quota_spec(count, t, w - 1));
        if w <= r {
            assert(quota_sum(count, t, w - 1) == (w - 1) * q + (w - 1));
            assert(quota_spec(count, t, w - 1) == q + 1);
            assert(quota_sum(count, t, w) == w * q + w);
        } else if w - 1 <= r {
            assert(quota_sum(count, t, w - 1) == (w - 1) * q + (w - 1));
            assert(quota_spec(count, t, w - 1) == q);
            assert(quota_sum(count, t, w) == w * q + r);
        } else {
            assert(quota_sum(count, t, w - 1) == (w - 1) * q + r);
            assert(quota_spec(count, t, w - 1) == q);
            assert(quota_sum(count, t, w) == w * q + r);
        }
    } else {
        assert(quota_sum(count, t, 0) == 0);
        assert(0 * q == 0) by (nonlinear_arith);
        assert(0 <= r);
    }
}

/// Round-robin dispatch hands out every record index exactly once: the
/// workers' quotas sum to the record count.
pub proof fn lemma_quota_total(count: int, t: int)
    requires
        t >= 1,
        count >= 0,
    ensures
        quota_sum(count, t, t) == count,
{
    lemma_quota_closed(count, t, t);
    lemma_fundamental_div_mod(count, t);
    assert(0 <= count % t < t) by (nonlinear_arith)
        requires
            t >= 1 && count >= 0,
    ;
    assert(t * (count / t) == (count / t) * t) by (nonlinear_arith);
}

/// This worker's record quota under round-robin dispatch.
pub(crate) fn quota(count: usize, workers: usize, w: usize) -> (n: usize)
    requires
        workers >= 1,
    ensures
        n as int == quota_spec(count as int, workers as int, w as int),
{
    let q = count / workers;
    let r = count % workers;
    if w < r {
        proof {
            lemma_fundamental_div_mod(count as int, workers as int);
            assert(q < count) by (nonlinear_arith)
                requires
                    count as int == workers as int * (q as int) + r as int,
                    r as int >= 1,
                    workers as int >= 1,
                    q as int >= 0,
            ;
        }
        q + 1
    } else {
        q
    }
}

/// Moves the whole local buffer into the shared sink, leaving the buffer
/// empty: the flush a worker performs when it wins the sink.
pub fn drain_into(sink: &mut Vec<u8>, buf: &mut Vec<u8>)
    ensures
        final(sink)@ == old(sink)@ + old(buf)@,
        final(buf)@.len() == 0,
{
    let mut k: usize = 0;
    while k < buf.len()
        invariant
            k <= buf@.len(),
            buf@ == old(buf)@,
            sink@ == old(sink)@ + buf@.take(k as int),
        decreases buf@.len() - k,
    {
        sink.push(buf[k]);
        k = k + 1;
        proof {
            assert(old(sink)@ + buf@.take(k as int) =~= (old(sink)@ + buf@.take(k - 1)).push(
                buf@[k - 1],
            ));
        }
    }
    proof {
        assert(buf@.take(buf@.len() as int) =~= buf@);
    }
    *buf = Vec::new();
}

/// One generator worker: produces its `n` records into a local buffer and
/// flushes the buffer into the shared sink whenever the buffer has reached
/// `threshold` bytes, with a mandatory final drain before it finishes, so
/// no record is ever lost.  A threshold of one byte flushes after every
/// record; a threshold no corpus reaches flushes only at hand-off.
#[verifier::rlimit(100)]
#[verifier::loop_isolation(false)]
pub fn worker_records(sink: &mut Vec<u8>, n: usize, stations: &StationList, threshold: usize)
    requires
        stations.wf(),
        stations@.len() > 0,
        threshold >= 1,
        old(sink)@.len() == 0 || old(sink)@.last() == NL,
    ensures
        lines_of(final(sink)@).len() == lines_of(old(sink)@).len() + n,
        forall|j: int|
            0 <= j < lines_of(old(sink)@).len() ==> #[trigger] lines_of(final(sink)@)[j]
                == lines_of(old(sink)@)[j],
        forall|j: int|
            lines_of(old(sink)@).len() <= j < lines_of(old(sink)@).len() + n
                ==> is_measurement_line(#[trigger] lines_of(final(sink)@)[j], stations@),
        final(sink)@.len() == 0 || final(sink)@.last() == NL,
{
    let ghost base = lines_of(old(sink)@);
    let mut buf: Vec<u8> = Vec::new();
    let mut i: usize = 0;
    while i < n
        invariant
            i <= n,
            sink@.len() == 0 || sink@.last() == NL,
            buf@.len() == 0 || buf@.last() == NL,
            lines_of(sink@ + buf@).len() == base.len() + i,
            forall|j: int|
                0 <= j < base.len() ==> #[trigger] lines_of(sink@ + buf@)[j] == base[j],
            forall|j: int|
                base.len() <= j < base.len() + i ==> is_measurement_line(
                    #[trigger] lines_of(sink@ + buf@)[j],
                    stations@,
                ),
        decreases n - i,
    {
        let st = stations.rand_station();
        let v = st.measurement();
        let ghost pres = sink@;
        let ghost preb = buf@;
        let ghost comb = sink@ + buf@;
        let ghost line = measurement_line(st.city@, v as int);
        proof {
            crate::text::lemma_render_parses(v as int);
            assert forall|k: int| 0 <= k < line.len() implies line[k] != NL by {
                if k < st.city@.len() {
                    assert(line[k] == st.city@[k]);
                } else if k == st.city@.len() {
                    assert(line[k] == SEMI);
                } else {
                    assert(line[k] == render_tenths(v as int)[k - st.city@.len() - 1]);
                }
            }
            assert(comb.len() == 0 || comb.last() == NL) by {
                if preb.len() > 0 {
                    assert(comb.last() == preb.last());
                } else if pres.len() > 0 {
                    assert(comb =~= pres);
                }
            }
        }
        push_line(&mut buf, &st.city, v);
        i = i + 1;
        proof {
            assert(sink@ + buf@ =~= comb + line.push(NL));
            lemma_lines_append(comb, line);
            assert(lines_of(sink@ + buf@) == lines_of(comb).push(line));
            assert(is_measurement_line(line, stations@)) by {
                let wi = choose|wi: int|
                    0 <= wi < stations@.len() && st.city@ == (#[trigger] stations@[wi]).0
                        && st.temp as int == stations@[wi].1;
                assert(stations@[wi].1 - NOISE_SPAN <= v as int <= stations@[wi].1 + NOISE_SPAN);
                assert(line == measurement_line(stations@[wi].0, v as int));
            }
            assert(buf@.last() == NL);
        }
        if buf.len() >= threshold {
            // the worker won the sink: flush the local buffer and clear it
            let ghost s0 = sink@;
            let ghost b0 = buf@;
            drain_into(sink, &mut buf);
            proof {
                assert(sink@ + buf@ =~= s0 + b0);
                assert(sink@.last() == NL) by {
                    assert(b0.len() > 0);
                    assert(sink@ == s0 + b0);
                    assert(sink@.last() == b0.last());
                }
            }
        }
    }
    // the mandatory final drain: without it records left in the local
    // buffer would be lost
    if buf.len() > 0 {
        let ghost s0 = sink@;
        let ghost b0 = buf@;
        drain_into(sink, &mut buf);
        proof {
            assert(sink@ + buf@ =~= s0 + b0);
            assert(sink@.last() == NL) by {
                assert(sink@ == s0 + b0);
                assert(sink@.last() == b0.last());
            }
        }
    }
    proof {
        assert(sink@ + buf@ =~= sink@);
    }
}

/// Runs `workers` generator workers over a round-robin partition of
/// `count` record indices, each with the given flush threshold, and
/// returns the shared sink: exactly `count` well-formed lines.
#[verifier::loop_isolation(false)]
pub(crate) fn generate_with_workers(
    count: usize,
    workers: usize,
    stations: &StationList,
    threshold: usize,
) -> (out: Vec<u8>)
    requires
        stations.wf(),
        stations@.len() > 0,
        workers >= 1,
        threshold >= 1,
    ensures
        corpus_ok(out@, stations@, count as int),
{
    let mut out: Vec<u8> = Vec::new();
    let mut w: usize = 0;
    while w < workers
        invariant
            w <= workers,
            out@.len() == 0 || out@.last() == NL,
            lines_of(out@).len() == quota_sum(count as int, workers as int, w as int),
            forall|j: int|
                0 <= j < lines_of(out@).len() ==> is_measurement_line(
                    #[trigger] lines_of(out@)[j],
                    stations@,
                ),
        decreases workers - w,
    {
        proof {
            lemma_quota_closed(count as int, workers as int, w as int);
            lemma_quota_closed(count as int, workers as int, w + 1);
            assert(quota_sum(count as int, workers as int, w as int) >= 0);
        }
        let ghost pre = lines_of(out@);
        let n_w = quota(count, workers, w);
        worker_records(&mut out, n_w, stations, threshold);
        w = w + 1;
    }
    proof {
        lemma_quota_total(count as int, workers as int);
    }
    out
}

/// A generation strategy: given a record count and the catalog it emits
/// the corpus bytes, exactly one well-formed line per record.  Which
/// entity each line samples is up to chance; how lines move into the sink
/// is the strategy's discipline.
pub trait Generator {
    fn name(&self) -> (r: &'static str);

    fn generate(self, count: usize, stations: &StationList) -> (out: Vec<u8>)
        requires
            stations.wf(),
            stations@.len() > 0,
        ensures
            corpus_ok(out@, stations@, count as int),
    ;
}

/// The single-threaded strategy: one buffer, built record by record and
/// handed to the caller to write out once at the end.
pub struct Serial;

impl Generator for Serial {
    fn name(&self) -> (r: &'static str) {
        "Serial"
    }

    fn generate(self, count: usize, stations: &StationList) -> (out: Vec<u8>) {
        let mut out: Vec<u8> = Vec::new();
        build_records(&mut out, count, stations);
        out
    }
}

/// The fan-out/fan-in strategy: workers fill independent buffers from a
/// round-robin dispatch of record indices, and a single writer drains each
/// finished buffer into the sink in completion order.  A zero worker count
/// is treated as one worker.
pub struct Parallel1 {
    pub workers: usize,
}

impl Parallel1 {
    pub fn new(workers: usize) -> (r: Parallel1)
        ensures
            r.workers == workers,
    {
        Parallel1 { workers }
    }
}

impl Generator for Parallel1 {
    fn name(&self) -> (r: &'static str) {
        "Parallel1"
    }

    fn generate(self, count: usize, stations: &StationList) -> (out: Vec<u8>) {
        let t = if self.workers == 0 {
            1
        } else {
            self.workers
        };
        // each worker keeps everything local until hand-off: the largest
        // threshold means the one flush is the fan-in itself
        generate_with_workers(count, t, stations, usize::MAX)
    }
}

/// The shared-sink strategy with opportunistic locking: after every
/// record a worker tries the sink and, when it wins it, flushes its whole
/// local buffer.  A zero worker count is treated as one worker.
pub struct Parallel2 {
    pub workers: usize,
}

impl Parallel2 {
    pub fn new(workers: usize) -> (r: Parallel2)
        ensures
            r.workers == workers,
    {
        Parallel2 { workers }
    }
}

impl Generator for Parallel2 {
    fn name(&self) -> (r: &'static str) {
        "Parallel2"
    }

    fn generate(self, count: usize, stations: &StationList) -> (out: Vec<u8>) {
        let t = if self.workers == 0 {
            1
        } else {
            self.workers
        };
        generate_with_workers(count, t, stations, 1)
    }
}

/// The shared-sink strategy with a flush threshold: a worker only tries
/// the sink once its local buffer holds `MIN_BUFFER` bytes, and drains the
/// remainder under a blocking acquire before it finishes.  A zero worker
/// count is treated as one worker.
pub struct Parallel3 {
    pub workers: usize,
}

impl Parallel3 {
    pub fn new(workers: usize) -> (r: Parallel3)
        ensures
            r.workers == workers,
    {
        Parallel3 { workers }
    }
}

impl Generator for Parallel3 {
    fn name(&self) -> (r: &'static str) {
        "Parallel3"
    }

    fn generate(self, count: usize, stations: &StationList) -> (out: Vec<u8>) {
        let t = if self.workers == 0 {
            1
        } else {
            self.workers
        };
        generate_with_workers(count, t, stations, MIN_BUFFER)
    }
}

/// The closed set of generation strategies, chosen by name at startup.
pub enum Generators {
    Serial(Serial),
    Parallel1(Parallel1),
    Parallel2(Parallel2),
    Parallel3(Parallel3),
}

/// The bytes of the strategy name `serial`.
pub open spec fn name_serial() -> Seq<u8> {
    seq![115u8, 101u8, 114u8, 105u8, 97u8, 108u8]
}

/// The bytes of the strategy name `parallel-<digit>`.
pub open spec fn name_parallel(digit: u8) -> Seq<u8> {
    seq![112u8, 97u8, 114u8, 97u8, 108u8, 108u8, 101u8, 108u8, 45u8, digit]
}

/// Which strategy a name selects: `serial`/`s`, `parallel-1`/`p1`,
/// `parallel-2`/`p2` or `parallel-3`/`p3`, each parallel one with six
/// workers; anything else is refused.
pub open spec fn generator_of(b: Seq<u8>) -> Option<Generators> {
    if b == name_serial() || b == seq![115u8] {
        Some(Generators::Serial(Serial))
    } else if b == name_parallel(49) || b == seq![112u8, 49u8] {
        Some(Generators::Parallel1(Parallel1 { workers: 6 }))
    } else if b == name_parallel(50) || b == seq![112u8, 50u8] {
        Some(Generators::Parallel2(Parallel2 { workers: 6 }))
    } else if b == name_parallel(51) || b == seq![112u8, 51u8] {
        Some(Generators::Parallel3(Parallel3 { workers: 6 }))
    } else {
        None
    }
}

impl Generators {
    /// Selects the strategy a name stands for, and fails with a
    /// configuration error on an unknown name.
    pub fn from_str(s: &str) -> (r: Result<Generators, Error>)
        ensures
            match r {
                Ok(g) => generator_of(s.spec_bytes()) == Some(g),
                Err(e) => e == Error::Config && generator_of(s.spec_bytes()) is None,
            },
    {
        let b = s.as_bytes();
        let n = b.len();
        if n == 6 && b[0] == 115 && b[1] == 101 && b[2] == 114 && b[3] == 105 && b[4] == 97 && b[5]
            == 108 {
            proof {
                assert(b@ =~= name_serial());
            }
            return Ok(Generators::Serial(Serial));
        }
        if n == 1 && b[0] == 115 {
            proof {
                assert(b@ =~= seq![115u8]);
            }
            return Ok(Generators::Serial(Serial));
        }
        if n == 10 && b[0] == 112 && b[1] == 97 && b[2] == 114 && b[3] == 97 && b[4] == 108 && b[5]
            == 108 && b[6] == 101 && b[7] == 108 && b[8] == 45 && 49 <= b[9] && b[9] <= 51 {
            proof {
                assert(b@ =~= name_parallel(b@[9]));
            }
            if b[9] == 49 {
                return Ok(Generators::Parallel1(Parallel1::new(6)));
            }
            if b[9] == 50 {
                return Ok(Generators::Parallel2(Parallel2::new(6)));
            }
            return Ok(Generators::Parallel3(Parallel3::new(6)));
        }
        if n == 2 && b[0] == 112 && 49 <= b[1] && b[1] <= 51 {
            proof {
                assert(b@ =~= seq![112u8, b@[1]]);
            }
            if b[1] == 49 {
                return Ok(Generators::Parallel1(Parallel1::new(6)));
            }
            if b[1] == 50 {
                return Ok(Generators::Parallel2(Parallel2::new(6)));
            }
            return Ok(Generators::Parallel3(Parallel3::new(6)));
        }
        Err(Error::Config)
    }
}

impl Generator for Generators {
    fn name(&self) -> (r: &'static str) {
        match self {
            Generators::Serial(g) => g.name(),
            Generators::Parallel1(g) => g.name(),
            Generators::Parallel2(g) => g.name(),
            Generators::Parallel3(g) => g.name(),
        }
    }

    fn generate(self, count: usize, stations: &StationList) -> (out: Vec<u8>) {
        match self {
            Generators::Serial(g) => g.generate(count, stations),
            Generators::Parallel1(g) => g.generate(count, stations),
            Generators::Parallel2(g) => g.generate(count, stations),
            Generators::Parallel3(g) => g.generate(count, stations),
        }
    }
}

/// Runs a generation strategy over the catalog: the corpus comes back as
/// bytes, exactly one line per requested record, for the caller to write
/// to the output file.
pub fn generate<G: Generator>(g: G, count: usize, stations: &StationList) -> (out: Vec<u8>)
    requires
        stations.wf(),
        stations@.len() > 0,
    ensures
        corpus_ok(out@, stations@, count as int),
{
    g.generate(count, stations)
}

} // verus!
