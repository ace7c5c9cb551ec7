use vstd::prelude::*;

verus! {

/// Number of rows the aggregator accepts in one dataset. The bound keeps
/// every intermediate of the fixed-point statistics inside machine integers.
pub const MAX_ROWS: usize = 0x10_0000;

/// One cell of a tabular flight record: either a text field (an airport
/// code) or a numeric field (a flight duration).
///
/// Durations are fixed-point integers: the caller picks a unit (for example
/// thousandths of a minute) and supplies every duration in that unit.
#[derive(Debug, Clone)]
pub enum ColumnVal {
    One(String),
    Two(u32),
}

/// Aggregated statistics for one directed connection between two airports.
///
/// `average` is the arithmetic mean of `times` rounded down to an integer,
/// and `std_dev` is the population standard deviation of `times` rounded
/// down to an integer, both in the same fixed-point unit as the durations.
#[derive(Debug, Clone)]
pub struct FlightStats {
    pub times: Vec<u32>,
    pub count: usize,
    pub average: u64,
    pub std_dev: u64,
}

/// Sum of a sequence of durations, as a mathematical integer.
pub open spec fn seq_sum(s: Seq<u32>) -> int
    decreases s.len(),
{
    if s.len() == 0 {
        0
    } else {
        seq_sum(s.drop_last()) + s.last()
    }
}

/// Scaled sum of squared deviations: each term is `(n * s[i] - total)^2`,
/// where `n` and `total` are the length and the sum of the full sequence.
/// Dividing by `n^3` gives the population variance of the sequence.
pub open spec fn sum_sq_dev(s: Seq<u32>, n: int, total: int) -> int
    decreases s.len(),
{
    if s.len() == 0 {
        0
    } else {
        sum_sq_dev(s.drop_last(), n, total) + (n * s.last() - total) * (n * s.last() - total)
    }
}

/// Population variance of a non-empty sequence, rounded down to an integer.
pub open spec fn variance_floor(s: Seq<u32>) -> int {
    let n = s.len() as int;
    sum_sq_dev(s, n, seq_sum(s)) / (n * n * n)
}

/// The statistics fields are exactly those derived from `times`:
/// `count` is the length, `average` the floor of the mean, and `std_dev`
/// the floor of the square root of the population variance.
pub open spec fn stats_wf(st: FlightStats) -> bool {
    let s = st.times@;
    let n = s.len() as int;
    &&& 1 <= n <= MAX_ROWS
    &&& st.count == s.len()
    &&& st.average == seq_sum(s) / n
    &&& st.std_dev * st.std_dev <= variance_floor(s)
    &&& variance_floor(s) < (st.std_dev + 1) * (st.std_dev + 1)
}

proof fn lemma_seq_sum_bounds(s: Seq<u32>)
    ensures
        0 <= seq_sum(s) <= s.len() * 0xFFFF_FFFF,
    decreases s.len(),
{
    if s.len() > 0 {
        lemma_seq_sum_bounds(s.drop_last());
    }
}

proof fn lemma_seq_sum_take_step(s: Seq<u32>, i: int)
    requires
        0 <= i < s.len(),
    ensures
        seq_sum(s.take(i + 1)) == seq_sum(s.take(i)) + s[i],
{
    assert(s.take(i + 1).drop_last() =~= s.take(i));
    assert(s.take(i + 1).last() == s[i]);
}

proof fn lemma_sum_sq_dev_take_step(s: Seq<u32>, i: int, n: int, total: int)
    requires
        0 <= i < s.len(),
    ensures
        sum_sq_dev(s.take(i + 1), n, total) == sum_sq_dev(s.take(i), n, total) + (n * s[i]
            - total) * (n * s[i] - total),
{
    assert(s.take(i + 1).drop_last() =~= s.take(i));
    assert(s.take(i + 1).last() == s[i]);
}

/// Sum of the durations, exactly; fits in a `u64` because at most
/// `MAX_ROWS` durations of at most `u32::MAX` units are admitted.
fn sum_times(times: &Vec<u32>) -> (s: u64)
    requires
        times@.len() <= MAX_ROWS,
    ensures
        s == seq_sum(times@),
{
    let mut sum: u64 = 0;
    let mut i: usize = 0;
    while i < times.len()
        invariant
            times@.len() <= MAX_ROWS,
            i <= times@.len(),
            sum == seq_sum(times@.take(i as int)),
            sum <= i * 0xFFFF_FFFF,
        decreases times@.len() - i,
    {
        proof {
            lemma_seq_sum_take_step(times@, i as int);
        }
        sum = sum + times[i] as u64;
        i = i + 1;
    }
    proof {
        assert(times@.take(times@.len() as int) =~= times@);
    }
    sum
}

/// Integer square root: the largest integer whose square does not exceed `v`.
fn isqrt64(v: u64) -> (r: u64)
    ensures
        r * r <= v < (r + 1) * (r + 1),
{
    let mut lo: u64 = 0;
    let mut hi: u64 = 0x1_0000_0000;
    proof {
        assert((v as int) < 0x1_0000_0000 * 0x1_0000_0000);
    }
    while lo + 1 < hi
        invariant
            lo < hi <= 0x1_0000_0000,
            lo * lo <= v,
            (v as int) < hi * hi,
        decreases hi - lo,
    {
        let mid: u64 = lo + (hi - lo) / 2;
        assert(lo < mid < hi);
        proof {
            assert(mid * mid < 0x1_0000_0000 * 0x1_0000_0000) by (nonlinear_arith)
                requires
                    0 <= mid < 0x1_0000_0000,
            ;
        }
        if mid * mid <= v {
            lo = mid;
        } else {
            hi = mid;
        }
    }
    lo
}

/// Computes the pair (average, standard deviation) of a non-empty list of
/// durations: the floor of the arithmetic mean, and the floor of the square
/// root of the population variance (squared deviations divided by the full
/// count, not the count less one).
pub fn calculate(times: &Vec<u32>) -> (r: (u64, u64))
    requires
        1 <= times@.len() <= MAX_ROWS,
    ensures
        r.0 == seq_sum(times@) / (times@.len() as int),
        r.0 <= 0xFFFF_FFFF,
        r.1 * r.1 <= variance_floor(times@),
        variance_floor(times@) < (r.1 + 1) * (r.1 + 1),
{
    let n: u64 = times.len() as u64;
    let sum: u64 = sum_times(times);
    proof {
        lemma_seq_sum_bounds(times@);
    }
    let avg: u64 = sum / n;
    proof {
        vstd::arithmetic::div_mod::lemma_div_is_ordered(
            sum as int,
            (n as int) * 0xFFFF_FFFF,
            n as int,
        );
        vstd::arithmetic::div_mod::lemma_div_multiples_vanish(0xFFFF_FFFF, n as int);
        assert((n as int) * 0xFFFF_FFFF == 0xFFFF_FFFF * (n as int));
    }
    let ghost nm: int = (n as int) * 0xFFFF_FFFF;
    let mut acc: u128 = 0;
    let mut i: usize = 0;
    while i < times.len()
        invariant
            1 <= times@.len() <= MAX_ROWS,
            n == times@.len(),
            sum == seq_sum(times@),
            0 <= sum <= nm,
            nm == (n as int) * 0xFFFF_FFFF,
            nm <= 0x10_0000 * 0xFFFF_FFFF,
            i <= times@.len(),
            acc == sum_sq_dev(times@.take(i as int), n as int, sum as int),
            acc <= i * (nm * nm),
        decreases times@.len() - i,
    {
        let t: u64 = times[i] as u64;
        proof {
            assert((n as int) * (t as int) <= nm) by (nonlinear_arith)
                requires
                    0 <= t <= 0xFFFF_FFFF,
                    0 <= n,
                    nm == (n as int) * 0xFFFF_FFFF,
            ;
        }
        let nt: u128 = (n as u128) * (t as u128);
        let d: u128 = if nt >= sum as u128 {
            nt - sum as u128
        } else {
            sum as u128 - nt
        };
        proof {
            let dev: int = (n as int) * (t as int) - sum;
            assert((n as int) * (t as int) <= nm) by (nonlinear_arith)
                requires
                    0 <= t <= 0xFFFF_FFFF,
                    0 <= n,
                    nm == (n as int) * 0xFFFF_FFFF,
            ;
            assert(d <= nm);
            assert((d as int) * (d as int) <= nm * nm) by (nonlinear_arith)
                requires
                    0 <= d <= nm,
            ;
            assert(nm * nm <= (0x10_0000 * 0xFFFF_FFFF) * (0x10_0000 * 0xFFFF_FFFF))
                by (nonlinear_arith)
                requires
                    0 <= nm <= 0x10_0000 * 0xFFFF_FFFF,
            ;
            assert((d as int) * (d as int) == dev * dev) by (nonlinear_arith)
                requires
                    (d as int) == dev || (d as int) == -dev,
            ;
            lemma_sum_sq_dev_take_step(times@, i as int, n as int, sum as int);
            assert((i as int) * (nm * nm) <= 0x10_0000 * ((0x10_0000 * 0xFFFF_FFFF) * (0x10_0000
                * 0xFFFF_FFFF))) by (nonlinear_arith)
                requires
                    0 <= i <= 0x10_0000,
                    0 <= nm * nm <= (0x10_0000 * 0xFFFF_FFFF) * (0x10_0000 * 0xFFFF_FFFF),
            ;
            assert((i as int + 1) * (nm * nm) == (i as int) * (nm * nm) + nm * nm)
                by (nonlinear_arith);
        }
        acc = acc + d * d;
        i = i + 1;
    }
    proof {
        assert(times@.take(times@.len() as int) =~= times@);
    }
    proof {
        assert((n as int) * (n as int) <= 0x10_0000 * 0x10_0000 && (n as int) * (n as int) * (
        n as int) <= 0x10_0000 * 0x10_0000 * 0x10_0000) by (nonlinear_arith)
            requires
                0 < n <= 0x10_0000,
        ;
    }
    let n3: u128 = (n as u128) * (n as u128) * (n as u128);
    proof {
        let m2: int = 0xFFFF_FFFFint * 0xFFFF_FFFF;
        assert(n3 as int == (n as int) * (n as int) * (n as int));
        assert(n3 >= 1) by (nonlinear_arith)
            requires
                n >= 1,
                n3 as int == (n as int) * (n as int) * (n as int),
        ;
        assert(acc <= (n as int) * (nm * nm)) by (nonlinear_arith)
            requires
                acc <= (i as int) * (nm * nm),
                i == n,
                0 <= nm * nm,
        ;
        assert((n as int) * (nm * nm) == ((n as int) * (n as int) * (n as int)) * m2)
            by (nonlinear_arith)
            requires
                nm == (n as int) * 0xFFFF_FFFF,
                m2 == 0xFFFF_FFFFint * 0xFFFF_FFFF,
        ;
        vstd::arithmetic::div_mod::lemma_div_is_ordered(acc as int, (n3 as int) * m2, n3 as int);
        vstd::arithmetic::div_mod::lemma_div_multiples_vanish(m2, n3 as int);
    }
    let var128: u128 = acc / n3;
    assert(var128 <= 0xFFFF_FFFF * 0xFFFF_FFFF);
    let var: u64 = var128 as u64;
    let std: u64 = isqrt64(var);
    (avg, std)
}

/// One directed connection leaving an origin airport.
#[derive(Debug, Clone)]
pub struct EdgeEntry {
    pub dest: String,
    pub stats: FlightStats,
}

/// All connections leaving one origin airport.
#[derive(Debug, Clone)]
pub struct OriginEntry {
    pub origin: String,
    pub edges: Vec<EdgeEntry>,
}

/// Directed graph of airport connections: a mapping from origin code to a
/// mapping from destination code to the statistics of that connection,
/// stored as association lists with unique keys at each level.
#[derive(Debug, Clone)]
pub struct Graph {
    pub entries: Vec<OriginEntry>,
}

/// Index of the first occurrence of `k` in `keys`, or -1 if absent.
pub open spec fn find_key(keys: Seq<Seq<char>>, k: Seq<char>) -> int
    decreases keys.len(),
{
    if keys.len() == 0 {
        -1
    } else if keys[0] == k {
        0
    } else if find_key(keys.drop_first(), k) < 0 {
        -1
    } else {
        find_key(keys.drop_first(), k) + 1
    }
}

pub open spec fn origin_keys(es: Seq<OriginEntry>) -> Seq<Seq<char>> {
    es.map_values(|e: OriginEntry| e.origin@)
}

pub open spec fn dest_keys(ed: Seq<EdgeEntry>) -> Seq<Seq<char>> {
    ed.map_values(|e: EdgeEntry| e.dest@)
}

pub open spec fn find_origin(es: Seq<OriginEntry>, o: Seq<char>) -> int {
    find_key(origin_keys(es), o)
}

pub open spec fn find_dest(ed: Seq<EdgeEntry>, d: Seq<char>) -> int {
    find_key(dest_keys(ed), d)
}

pub proof fn lemma_find_key_props(keys: Seq<Seq<char>>, k: Seq<char>)
    ensures
        find_key(keys, k) >= 0 ==> 0 <= find_key(keys, k) < keys.len() && keys[find_key(keys, k)]
            == k && (forall|j: int| 0 <= j < find_key(keys, k) ==> keys[j] != k),
        find_key(keys, k) < 0 ==> find_key(keys, k) == -1 && (forall|j: int|
            0 <= j < keys.len() ==> keys[j] != k),
    decreases keys.len(),
{
    if keys.len() > 0 && keys[0] != k {
        let rest = keys.drop_first();
        lemma_find_key_props(rest, k);
        assert(forall|j: int| 0 <= j < rest.len() ==> rest[j] == keys[j + 1]);
        if find_key(rest, k) >= 0 {
            assert forall|j: int| 0 <= j < find_key(keys, k) implies keys[j] != k by {
                if j > 0 {
                    assert(keys[j] == rest[j - 1]);
                }
            }
        } else {
            assert forall|j: int| 0 <= j < keys.len() implies keys[j] != k by {
                if j > 0 {
                    assert(keys[j] == rest[j - 1]);
                }
            }
        }
    }
}

pub proof fn lemma_find_key_at(keys: Seq<Seq<char>>, k: Seq<char>, i: int)
    requires
        0 <= i < keys.len(),
        keys[i] == k,
        forall|j: int| 0 <= j < i ==> keys[j] != k,
    ensures
        find_key(keys, k) == i,
    decreases keys.len(),
{
    if i > 0 {
        lemma_find_key_at(keys.drop_first(), k, i - 1);
    }
}

pub proof fn lemma_find_key_none(keys: Seq<Seq<char>>, k: Seq<char>)
    requires
        forall|j: int| 0 <= j < keys.len() ==> keys[j] != k,
    ensures
        find_key(keys, k) == -1,
    decreases keys.len(),
{
    if keys.len() > 0 {
        lemma_find_key_none(keys.drop_first(), k);
    }
}

pub proof fn lemma_find_key_push(keys: Seq<Seq<char>>, knew: Seq<char>, k: Seq<char>)
    ensures
        find_key(keys.push(knew), k) == if find_key(keys, k) >= 0 {
            find_key(keys, k)
        } else if knew == k {
            keys.len() as int
        } else {
            -1
        },
    decreases keys.len(),
{
    if keys.len() == 0 {
        assert(keys.push(knew)[0] == knew);
        assert(keys.push(knew).drop_first() =~= Seq::<Seq<char>>::empty());
        if knew == k {
            assert(find_key(keys.push(knew), k) == 0);
            assert(find_key(keys, k) == -1);
        } else {
            assert(find_key(keys.push(knew).drop_first(), k) == -1);
            assert(find_key(keys.push(knew), k) == -1);
        }
    } else {
        let rest = keys.drop_first();
        assert(keys.push(knew)[0] == keys[0]);
        assert(keys.push(knew).drop_first() =~= rest.push(knew));
        lemma_find_key_push(rest, knew, k);
        if keys[0] == k {
            assert(find_key(keys, k) == 0);
            assert(find_key(keys.push(knew), k) == 0);
        } else if find_key(rest, k) >= 0 {
            assert(find_key(keys, k) == find_key(rest, k) + 1);
            assert(find_key(rest.push(knew), k) == find_key(rest, k));
            assert(find_key(keys.push(knew), k) == find_key(rest.push(knew), k) + 1);
        } else if knew == k {
            assert(find_key(keys, k) == -1);
            assert(find_key(rest.push(knew), k) == rest.len());
            assert(find_key(keys.push(knew), k) == find_key(rest.push(knew), k) + 1);
        } else {
            assert(find_key(rest.push(knew), k) == -1);
            assert(find_key(keys.push(knew), k) == -1);
        }
    }
}

/// The edge statistics recorded from `o` to `d`; meaningful only when the
/// edge is present.
pub open spec fn has_origin_in(es: Seq<OriginEntry>, o: Seq<char>) -> bool {
    find_origin(es, o) >= 0
}

pub open spec fn origin_at(es: Seq<OriginEntry>, o: Seq<char>) -> OriginEntry {
    es[find_origin(es, o)]
}

pub open spec fn has_edge_in(es: Seq<OriginEntry>, o: Seq<char>, d: Seq<char>) -> bool {
    has_origin_in(es, o) && find_dest(origin_at(es, o).edges@, d) >= 0
}

pub open spec fn edge_stats_in(es: Seq<OriginEntry>, o: Seq<char>, d: Seq<char>) -> FlightStats {
    let ed = origin_at(es, o).edges@;
    ed[find_dest(ed, d)].stats
}

pub open spec fn has_edge(g: Graph, o: Seq<char>, d: Seq<char>) -> bool {
    has_edge_in(g.entries@, o, d)
}

pub open spec fn edge_stats(g: Graph, o: Seq<char>, d: Seq<char>) -> FlightStats {
    edge_stats_in(g.entries@, o, d)
}

/// Weight of the edge from `o` to `d`: its average duration.
pub open spec fn edge_weight(g: Graph, o: Seq<char>, d: Seq<char>) -> int {
    edge_stats(g, o, d).average as int
}

pub open spec fn total_edges(es: Seq<OriginEntry>) -> int
    decreases es.len(),
{
    if es.len() == 0 {
        0
    } else {
        total_edges(es.drop_last()) + es.last().edges@.len()
    }
}

/// Structural well-formedness of the graph: origin keys are unique,
/// destination keys under each origin are unique, every recorded edge
/// carries statistics derived from its observations, and the graph holds
/// at most `MAX_ROWS` edges with averages bounded by `u32::MAX`.
pub open spec fn graph_wf(g: Graph) -> bool {
    let es = g.entries@;
    &&& forall|i: int, j: int|
        0 <= i < j < es.len() ==> origin_keys(es)[i] != origin_keys(es)[j]
    &&& forall|i: int, a: int, b: int|
        0 <= i < es.len() && 0 <= a < b < es[i].edges@.len() ==> dest_keys(es[i].edges@)[a]
            != dest_keys(es[i].edges@)[b]
    &&& forall|i: int, a: int|
        0 <= i < es.len() && 0 <= a < es[i].edges@.len() ==> stats_wf(
            #[trigger] es[i].edges@[a].stats,
        )
    &&& forall|i: int| 0 <= i < es.len() ==> (#[trigger] es[i].edges@.len()) >= 1
    &&& total_edges(es) <= MAX_ROWS
}

/// True of a row that carries the expected shape: at least three fields,
/// text, text, number. Any other row is malformed and is skipped.
pub open spec fn row_ok(r: Vec<ColumnVal>) -> bool {
    &&& r@.len() >= 3
    &&& r@[0] is One
    &&& r@[1] is One
    &&& r@[2] is Two
}

pub open spec fn row_origin(r: Vec<ColumnVal>) -> Seq<char> {
    match r@[0] {
        ColumnVal::One(s) => s@,
        ColumnVal::Two(_) => Seq::empty(),
    }
}

pub open spec fn row_dest(r: Vec<ColumnVal>) -> Seq<char> {
    match r@[1] {
        ColumnVal::One(s) => s@,
        ColumnVal::Two(_) => Seq::empty(),
    }
}

pub open spec fn row_time(r: Vec<ColumnVal>) -> u32 {
    match r@[2] {
        ColumnVal::One(_) => 0,
        ColumnVal::Two(t) => t,
    }
}

/// The durations observed from `o` to `d` among the well-shaped rows,
/// in input order.
pub open spec fn obs_of(rows: Seq<Vec<ColumnVal>>, o: Seq<char>, d: Seq<char>) -> Seq<u32>
    decreases rows.len(),
{
    if rows.len() == 0 {
        Seq::empty()
    } else {
        let rest = obs_of(rows.drop_last(), o, d);
        if row_ok(rows.last()) && row_origin(rows.last()) == o && row_dest(rows.last()) == d {
            rest.push(row_time(rows.last()))
        } else {
            rest
        }
    }
}

/// The graph is exactly the aggregation of `rows`: an edge is present from
/// `o` to `d` precisely when some well-shaped row records that pair, and
/// its observation list is the durations of those rows in input order.
/// Together with `graph_wf` this fixes every statistics field.
pub open spec fn aggregated(g: Graph, rows: Seq<Vec<ColumnVal>>) -> bool {
    &&& graph_wf(g)
    &&& forall|o: Seq<char>, d: Seq<char>|
        #[trigger] has_edge(g, o, d) ==> obs_of(rows, o, d).len() > 0
    &&& forall|o: Seq<char>, d: Seq<char>|
        (#[trigger] obs_of(rows, o, d)).len() > 0 ==> has_edge(g, o, d)
    &&& forall|o: Seq<char>, d: Seq<char>|
        #[trigger] has_edge(g, o, d) ==> edge_stats(g, o, d).times@ == obs_of(rows, o, d)
}

proof fn lemma_obs_take_step(rows: Seq<Vec<ColumnVal>>, k: int)
    requires
        0 <= k < rows.len(),
    ensures
        forall|o: Seq<char>, d: Seq<char>|
            #[trigger] obs_of(rows.take(k + 1), o, d) == (if row_ok(rows[k]) && row_origin(
                rows[k],
            ) == o && row_dest(rows[k]) == d {
                obs_of(rows.take(k), o, d).push(row_time(rows[k]))
            } else {
                obs_of(rows.take(k), o, d)
            }),
{
    assert(rows.take(k + 1).drop_last() =~= rows.take(k));
    assert(rows.take(k + 1).last() == rows[k]);
}

pub(crate) fn find_origin_idx(entries: &Vec<OriginEntry>, o: &String) -> (r: Option<usize>)
    ensures
        match r {
            Some(i) => 0 <= i < entries@.len() && i == find_origin(entries@, o@),
            None => find_origin(entries@, o@) == -1,
        },
{
    let mut i: usize = 0;
    while i < entries.len()
        invariant
            i <= entries@.len(),
            forall|j: int| 0 <= j < i ==> origin_keys(entries@)[j] != o@,
        decreases entries@.len() - i,
    {
        if entries[i].origin == *o {
            proof {
                lemma_find_key_at(origin_keys(entries@), o@, i as int);
            }
            return Some(i);
        }
        i = i + 1;
    }
    proof {
        lemma_find_key_none(origin_keys(entries@), o@);
    }
    None
}

fn find_dest_idx(edges: &Vec<EdgeEntry>, d: &String) -> (r: Option<usize>)
    ensures
        match r {
            Some(i) => 0 <= i < edges@.len() && i == find_dest(edges@, d@),
            None => find_dest(edges@, d@) == -1,
        },
{
    let mut i: usize = 0;
    while i < edges.len()
        invariant
            i <= edges@.len(),
            forall|j: int| 0 <= j < i ==> dest_keys(edges@)[j] != d@,
        decreases edges@.len() - i,
    {
        if edges[i].dest == *d {
            proof {
                lemma_find_key_at(dest_keys(edges@), d@, i as int);
            }
            return Some(i);
        }
        i = i + 1;
    }
    proof {
        lemma_find_key_none(dest_keys(edges@), d@);
    }
    None
}

/// Invariant of the aggregation pass after the first `k` rows: the keys are
/// unique, every recorded edge's observation list is exactly the durations
/// of the matching rows seen so far, and counts mirror lengths.
spec fn partial_state(es: Seq<OriginEntry>, rows: Seq<Vec<ColumnVal>>, k: int) -> bool {
    &&& forall|i: int, j: int| 0 <= i < j < es.len() ==> origin_keys(es)[i] != origin_keys(es)[j]
    &&& forall|i: int, a: int, b: int|
        0 <= i < es.len() && 0 <= a < b < es[i].edges@.len() ==> dest_keys(es[i].edges@)[a]
            != dest_keys(es[i].edges@)[b]
    &&& forall|i: int| 0 <= i < es.len() ==> (#[trigger] es[i].edges@.len()) >= 1
    &&& forall|i: int, a: int|
        0 <= i < es.len() && 0 <= a < es[i].edges@.len() ==> {
            let st = (#[trigger] es[i].edges@[a]).stats;
            st.count == st.times@.len() && 1 <= st.times@.len() <= k
        }
    &&& total_edges(es) <= k
    &&& forall|o: Seq<char>, d: Seq<char>|
        #[trigger] has_edge_in(es, o, d) ==> obs_of(rows.take(k), o, d).len() > 0
    &&& forall|o: Seq<char>, d: Seq<char>|
        (#[trigger] obs_of(rows.take(k), o, d)).len() > 0 ==> has_edge_in(es, o, d)
    &&& forall|o: Seq<char>, d: Seq<char>|
        #[trigger] has_edge_in(es, o, d) ==> edge_stats_in(es, o, d).times@ == obs_of(
            rows.take(k),
            o,
            d,
        )
}

proof fn lemma_total_edges_push(es: Seq<OriginEntry>, e: OriginEntry)
    ensures
        total_edges(es.push(e)) == total_edges(es) + e.edges@.len(),
{
    assert(es.push(e).drop_last() =~= es);
}

proof fn lemma_total_edges_update(es: Seq<OriginEntry>, i: int, e: OriginEntry)
    requires
        0 <= i < es.len(),
        e.edges@.len() == es[i].edges@.len() + 1,
    ensures
        total_edges(es.update(i, e)) == total_edges(es) + 1,
    decreases es.len(),
{
    let es2 = es.update(i, e);
    if i == es.len() - 1 {
        assert(es2.drop_last() =~= es.drop_last());
        assert(es2.last() == e);
    } else {
        assert(es2.drop_last() =~= es.drop_last().update(i, e));
        assert(es2.last() == es.last());
        lemma_total_edges_update(es.drop_last(), i, e);
    }
}

proof fn lemma_total_edges_same(es: Seq<OriginEntry>, es2: Seq<OriginEntry>)
    requires
        es.len() == es2.len(),
        forall|i: int| 0 <= i < es.len() ==> es[i].edges@.len() == es2[i].edges@.len(),
    ensures
        total_edges(es) == total_edges(es2),
    decreases es.len(),
{
    if es.len() > 0 {
        assert(es.drop_last().len() == es2.drop_last().len());
        lemma_total_edges_same(es.drop_last(), es2.drop_last());
    }
}

proof fn lemma_update_existing(
    es0: Seq<OriginEntry>,
    es2: Seq<OriginEntry>,
    rows: Seq<Vec<ColumnVal>>,
    k: int,
    oi: int,
    di: int,
)
    requires
        0 <= k < rows.len(),
        rows.len() <= MAX_ROWS,
        partial_state(es0, rows, k),
        row_ok(rows[k]),
        0 <= oi < es0.len(),
        0 <= di < es0[oi].edges@.len(),
        oi == find_origin(es0, row_origin(rows[k])),
        di == find_dest(es0[oi].edges@, row_dest(rows[k])),
        es2.len() == es0.len(),
        forall|i: int| 0 <= i < es0.len() && i != oi ==> es2[i] == es0[i],
        es2[oi].origin@ == es0[oi].origin@,
        es2[oi].edges@.len() == es0[oi].edges@.len(),
        forall|a: int|
            0 <= a < es0[oi].edges@.len() && a != di ==> es2[oi].edges@[a] == es0[oi].edges@[a],
        es2[oi].edges@[di].dest@ == es0[oi].edges@[di].dest@,
        es2[oi].edges@[di].stats.times@ == es0[oi].edges@[di].stats.times@.push(
            row_time(rows[k]),
        ),
        es2[oi].edges@[di].stats.count == es0[oi].edges@[di].stats.count + 1,
    ensures
        partial_state(es2, rows, k + 1),
{
    let o_ = row_origin(rows[k]);
    let d_ = row_dest(rows[k]);
    lemma_obs_take_step(rows, k);
    lemma_find_key_props(origin_keys(es0), o_);
    lemma_find_key_props(dest_keys(es0[oi].edges@), d_);
    assert(origin_keys(es2) =~= origin_keys(es0));
    assert forall|i: int| 0 <= i < es2.len() implies dest_keys(#[trigger] es2[i].edges@)
        == dest_keys(es0[i].edges@) by {
        assert(dest_keys(es2[i].edges@) =~= dest_keys(es0[i].edges@));
    }
    lemma_total_edges_same(es0, es2);
    assert(has_edge_in(es0, o_, d_));
    assert(obs_of(rows.take(k), o_, d_).len() > 0);
    assert forall|o: Seq<char>, d: Seq<char>| #[trigger] has_edge_in(es2, o, d)
        == has_edge_in(es0, o, d) by {
        if find_origin(es0, o) >= 0 {
            lemma_find_key_props(origin_keys(es0), o);
            let fo = find_origin(es0, o);
            assert(dest_keys(es2[fo].edges@) == dest_keys(es0[fo].edges@));
        }
    }
    assert forall|o: Seq<char>, d: Seq<char>| #[trigger] has_edge_in(es2, o, d) implies
        edge_stats_in(es2, o, d).times@ == obs_of(rows.take(k + 1), o, d) && {
        let st = edge_stats_in(es2, o, d);
        st.count == st.times@.len() && 1 <= st.times@.len() <= k + 1
    } by {
        lemma_find_key_props(origin_keys(es0), o);
        let fo = find_origin(es0, o);
        assert(dest_keys(es2[fo].edges@) == dest_keys(es0[fo].edges@));
        lemma_find_key_props(dest_keys(es0[fo].edges@), d);
        let fd = find_dest(es0[fo].edges@, d);
        assert(origin_keys(es0)[fo] == o);
        assert(origin_keys(es0)[oi] == o_);
        assert(dest_keys(es0[fo].edges@)[fd] == d);
        if fo == oi && fd == di {
            assert(o == o_ && d == d_);
            assert(edge_stats_in(es0, o_, d_) == es0[oi].edges@[di].stats);
            assert(edge_stats_in(es0, o_, d_).times@ == obs_of(rows.take(k), o_, d_));
            assert(edge_stats_in(es2, o, d) == es2[oi].edges@[di].stats);
            assert(obs_of(rows.take(k + 1), o_, d_) == obs_of(rows.take(k), o_, d_).push(
                row_time(rows[k]),
            ));
        } else {
            if o == o_ && d == d_ {
                assert(fo == oi);
                assert(fd == di);
            }
            assert(!(o == o_ && d == d_));
            assert(obs_of(rows.take(k + 1), o, d) == obs_of(rows.take(k), o, d));
            assert(es2[fo].edges@[fd] == es0[fo].edges@[fd]);
            assert(edge_stats_in(es2, o, d) == edge_stats_in(es0, o, d));
        }
    }
    assert forall|o: Seq<char>, d: Seq<char>|
        (#[trigger] obs_of(rows.take(k + 1), o, d)).len() > 0 implies has_edge_in(es2, o, d) by {
        if o == o_ && d == d_ {
            assert(has_edge_in(es0, o_, d_));
        } else {
            assert(obs_of(rows.take(k + 1), o, d) == obs_of(rows.take(k), o, d));
        }
    }
    assert forall|i: int, a: int|
        0 <= i < es2.len() && 0 <= a < es2[i].edges@.len() implies {
        let st = (#[trigger] es2[i].edges@[a]).stats;
        st.count == st.times@.len() && 1 <= st.times@.len() <= k + 1
    } by {
        if i != oi || a != di {
            assert(es2[i].edges@[a] == es0[i].edges@[a]);
        }
    }
}

proof fn lemma_new_dest(
    es0: Seq<OriginEntry>,
    es2: Seq<OriginEntry>,
    rows: Seq<Vec<ColumnVal>>,
    k: int,
    oi: int,
)
    requires
        0 <= k < rows.len(),
        rows.len() <= MAX_ROWS,
        partial_state(es0, rows, k),
        row_ok(rows[k]),
        0 <= oi < es0.len(),
        oi == find_origin(es0, row_origin(rows[k])),
        find_dest(es0[oi].edges@, row_dest(rows[k])) == -1,
        es2.len() == es0.len(),
        forall|i: int| 0 <= i < es0.len() && i != oi ==> es2[i] == es0[i],
        es2[oi].origin@ == es0[oi].origin@,
        es2[oi].edges@.len() == es0[oi].edges@.len() + 1,
        forall|a: int| 0 <= a < es0[oi].edges@.len() ==> es2[oi].edges@[a] == es0[oi].edges@[a],
        es2[oi].edges@.last().dest@ == row_dest(rows[k]),
        es2[oi].edges@.last().stats.times@ == seq![row_time(rows[k])],
        es2[oi].edges@.last().stats.count == 1,
    ensures
        partial_state(es2, rows, k + 1),
{
    let o_ = row_origin(rows[k]);
    let d_ = row_dest(rows[k]);
    let ne = es2[oi].edges@.last();
    let len0 = es0[oi].edges@.len() as int;
    lemma_obs_take_step(rows, k);
    lemma_find_key_props(origin_keys(es0), o_);
    lemma_find_key_props(dest_keys(es0[oi].edges@), d_);
    assert(origin_keys(es2) =~= origin_keys(es0));
    assert(origin_keys(es0)[oi] == o_);
    assert forall|i: int|
        0 <= i < es2.len() && i != oi implies dest_keys(#[trigger] es2[i].edges@) == dest_keys(
        es0[i].edges@,
    ) by {
        assert(dest_keys(es2[i].edges@) =~= dest_keys(es0[i].edges@));
    }
    assert(dest_keys(es2[oi].edges@) =~= dest_keys(es0[oi].edges@).push(d_));
    assert forall|d: Seq<char>| true implies #[trigger] find_dest(es2[oi].edges@, d) == (
    if find_dest(es0[oi].edges@, d) >= 0 {
        find_dest(es0[oi].edges@, d)
    } else if d == d_ {
        len0
    } else {
        -1
    }) by {
        lemma_find_key_push(dest_keys(es0[oi].edges@), d_, d);
    }
    assert(es2 =~= es0.update(oi, es2[oi]));
    lemma_total_edges_update(es0, oi, es2[oi]);
    assert(!has_edge_in(es0, o_, d_));
    assert(obs_of(rows.take(k), o_, d_).len() == 0);
    assert(obs_of(rows.take(k + 1), o_, d_) =~= seq![row_time(rows[k])]);
    // destination keys at oi stay distinct
    assert forall|a: int, b: int| 0 <= a < b < es2[oi].edges@.len() implies dest_keys(
        es2[oi].edges@,
    )[a] != dest_keys(es2[oi].edges@)[b] by {
        if b == len0 {
            assert(dest_keys(es0[oi].edges@)[a] != d_);
        }
    }
    assert forall|o: Seq<char>, d: Seq<char>| #[trigger] has_edge_in(es2, o, d) implies
        obs_of(rows.take(k + 1), o, d).len() > 0 && edge_stats_in(es2, o, d).times@ == obs_of(
        rows.take(k + 1),
        o,
        d,
    ) && {
        let st = edge_stats_in(es2, o, d);
        st.count == st.times@.len() && 1 <= st.times@.len() <= k + 1
    } by {
        lemma_find_key_props(origin_keys(es0), o);
        let fo = find_origin(es0, o);
        assert(origin_keys(es0)[fo] == o);
        if fo != oi {
            assert(es2[fo] == es0[fo]);
            assert(o != o_);
            assert(has_edge_in(es0, o, d));
            lemma_find_key_props(dest_keys(es0[fo].edges@), d);
            let fd = find_dest(es0[fo].edges@, d);
            assert(es2[fo].edges@[fd] == es0[fo].edges@[fd]);
            assert(obs_of(rows.take(k + 1), o, d) == obs_of(rows.take(k), o, d));
            assert(edge_stats_in(es2, o, d) == edge_stats_in(es0, o, d));
        } else {
            assert(o == o_);
            let fd2 = find_dest(es2[oi].edges@, d);
            lemma_find_key_props(dest_keys(es2[oi].edges@), d);
            assert(dest_keys(es2[oi].edges@)[fd2] == d);
            if fd2 == len0 {
                assert(d == d_);
                assert(edge_stats_in(es2, o, d) == ne.stats);
                assert(ne.stats.times@.len() == 1);
            } else {
                assert(es2[oi].edges@[fd2] == es0[oi].edges@[fd2]);
                assert(find_dest(es0[oi].edges@, d) == fd2);
                assert(d != d_);
                assert(has_edge_in(es0, o, d));
                assert(obs_of(rows.take(k + 1), o, d) == obs_of(rows.take(k), o, d));
                assert(edge_stats_in(es2, o, d) == edge_stats_in(es0, o, d));
            }
        }
    }
    assert forall|o: Seq<char>, d: Seq<char>|
        (#[trigger] obs_of(rows.take(k + 1), o, d)).len() > 0 implies has_edge_in(es2, o, d) by {
        if o == o_ && d == d_ {
            assert(find_dest(es2[oi].edges@, d_) == len0);
            assert(has_edge_in(es2, o_, d_));
        } else {
            assert(obs_of(rows.take(k + 1), o, d) == obs_of(rows.take(k), o, d));
            assert(has_edge_in(es0, o, d));
            lemma_find_key_props(origin_keys(es0), o);
            let fo = find_origin(es0, o);
            if fo == oi {
                assert(find_dest(es0[oi].edges@, d) >= 0);
            } else {
                assert(es2[fo] == es0[fo]);
            }
            assert(has_edge_in(es2, o, d));
        }
    }
}

proof fn lemma_new_origin(
    es0: Seq<OriginEntry>,
    es2: Seq<OriginEntry>,
    rows: Seq<Vec<ColumnVal>>,
    k: int,
)
    requires
        0 <= k < rows.len(),
        rows.len() <= MAX_ROWS,
        partial_state(es0, rows, k),
        row_ok(rows[k]),
        find_origin(es0, row_origin(rows[k])) == -1,
        es2.len() == es0.len() + 1,
        forall|i: int| 0 <= i < es0.len() ==> es2[i] == es0[i],
        es2.last().origin@ == row_origin(rows[k]),
        es2.last().edges@.len() == 1,
        es2.last().edges@[0].dest@ == row_dest(rows[k]),
        es2.last().edges@[0].stats.times@ == seq![row_time(rows[k])],
        es2.last().edges@[0].stats.count == 1,
    ensures
        partial_state(es2, rows, k + 1),
{
    let o_ = row_origin(rows[k]);
    let d_ = row_dest(rows[k]);
    let no = es2.last();
    let len0 = es0.len() as int;
    lemma_obs_take_step(rows, k);
    lemma_find_key_props(origin_keys(es0), o_);
    assert(origin_keys(es2) =~= origin_keys(es0).push(o_));
    assert forall|o: Seq<char>| true implies #[trigger] find_origin(es2, o) == (if find_origin(
        es0,
        o,
    ) >= 0 {
        find_origin(es0, o)
    } else if o == o_ {
        len0
    } else {
        -1
    }) by {
        lemma_find_key_push(origin_keys(es0), o_, o);
    }
    assert(es2 =~= es0.push(no));
    lemma_total_edges_push(es0, no);
    assert(!has_origin_in(es0, o_));
    assert forall|d: Seq<char>| true implies #[trigger] find_dest(no.edges@, d) == (if d == d_ {
        0int
    } else {
        -1int
    }) by {
        if d == d_ {
            lemma_find_key_at(dest_keys(no.edges@), d, 0);
        } else {
            lemma_find_key_none(dest_keys(no.edges@), d);
        }
    }
    assert(obs_of(rows.take(k), o_, d_).len() == 0);
    assert(obs_of(rows.take(k + 1), o_, d_) =~= seq![row_time(rows[k])]);
    assert forall|o: Seq<char>, d: Seq<char>| #[trigger] has_edge_in(es2, o, d) implies
        obs_of(rows.take(k + 1), o, d).len() > 0 && edge_stats_in(es2, o, d).times@ == obs_of(
        rows.take(k + 1),
        o,
        d,
    ) && {
        let st = edge_stats_in(es2, o, d);
        st.count == st.times@.len() && 1 <= st.times@.len() <= k + 1
    } by {
        let fo2 = find_origin(es2, o);
        lemma_find_key_props(origin_keys(es0), o);
        if fo2 == len0 {
            assert(o == o_ || find_origin(es0, o) == len0);
            assert(o == o_);
            assert(d == d_);
            assert(edge_stats_in(es2, o_, d_) == no.edges@[0].stats);
        } else {
            assert(find_origin(es0, o) == fo2);
            assert(es2[fo2] == es0[fo2]);
            assert(origin_keys(es0)[fo2] == o);
            assert(o != o_);
            assert(has_edge_in(es0, o, d));
            let fd = find_dest(es0[fo2].edges@, d);
            lemma_find_key_props(dest_keys(es0[fo2].edges@), d);
            assert(es2[fo2].edges@[fd] == es0[fo2].edges@[fd]);
            assert(obs_of(rows.take(k + 1), o, d) == obs_of(rows.take(k), o, d));
            assert(edge_stats_in(es2, o, d) == edge_stats_in(es0, o, d));
        }
    }
    assert forall|o: Seq<char>, d: Seq<char>|
        (#[trigger] obs_of(rows.take(k + 1), o, d)).len() > 0 implies has_edge_in(es2, o, d) by {
        if o == o_ && d == d_ {
            assert(find_origin(es2, o_) == len0);
            assert(has_edge_in(es2, o_, d_));
        } else {
            assert(obs_of(rows.take(k + 1), o, d) == obs_of(rows.take(k), o, d));
            assert(has_edge_in(es0, o, d));
            lemma_find_key_props(origin_keys(es0), o);
            let fo = find_origin(es0, o);
            assert(es2[fo] == es0[fo]);
            assert(has_edge_in(es2, o, d));
        }
    }
    assert forall|i: int, a: int|
        0 <= i < es2.len() && 0 <= a < es2[i].edges@.len() implies {
        let st = (#[trigger] es2[i].edges@[a]).stats;
        st.count == st.times@.len() && 1 <= st.times@.len() <= k + 1
    } by {
        if i < len0 {
            assert(es2[i] == es0[i]);
        }
    }
}

/// Records one observed duration for the pair `orig -> dest`, creating the
/// origin and destination entries when absent.
fn add_observation(
    entries: &mut Vec<OriginEntry>,
    orig: &String,
    dest: &String,
    tval: u32,
    Ghost(rows): Ghost<Seq<Vec<ColumnVal>>>,
    Ghost(k): Ghost<int>,
)
    requires
        0 <= k < rows.len(),
        rows.len() <= MAX_ROWS,
        partial_state(old(entries)@, rows, k),
        row_ok(rows[k]),
        row_origin(rows[k]) == orig@,
        row_dest(rows[k]) == dest@,
        row_time(rows[k]) == tval,
    ensures
        partial_state(final(entries)@, rows, k + 1),
{
    proof {
        lemma_obs_take_step(rows, k);
    }
    let ghost es0: Seq<OriginEntry> = entries@;
    let ghost o_: Seq<char> = orig@;
    let ghost d_: Seq<char> = dest@;
    match find_origin_idx(entries, orig) {
        Some(oi) => {
            proof {
                lemma_find_key_props(origin_keys(es0), o_);
            }
            match find_dest_idx(&entries[oi].edges, dest) {
                Some(di) => {
                    proof {
                        lemma_find_key_props(dest_keys(es0[oi as int].edges@), d_);
                    }
                    let c: usize = entries[oi].edges[di].stats.count;
                    entries[oi].edges[di].stats.times.push(tval);
                    entries[oi].edges[di].stats.count = c + 1;
                    proof {
                        lemma_update_existing(es0, entries@, rows, k, oi as int, di as int);
                    }
                },
                None => {
                    let mut tv: Vec<u32> = Vec::new();
                    tv.push(tval);
                    let st = FlightStats { times: tv, count: 1, average: 0, std_dev: 0 };
                    let ne = EdgeEntry { dest: dest.clone(), stats: st };
                    entries[oi].edges.push(ne);
                    proof {
                        lemma_new_dest(es0, entries@, rows, k, oi as int);
                    }
                },
            }
        },
        None => {
            let mut tv: Vec<u32> = Vec::new();
            tv.push(tval);
            let st = FlightStats { times: tv, count: 1, average: 0, std_dev: 0 };
            let ne = EdgeEntry { dest: dest.clone(), stats: st };
            let mut ev: Vec<EdgeEntry> = Vec::new();
            ev.push(ne);
            let no = OriginEntry { origin: orig.clone(), edges: ev };
            entries.push(no);
            proof {
                lemma_new_origin(es0, entries@, rows, k);
            }
        },
    }
}

/// Builds the graph of flight statistics from tabular records.
///
/// Every well-shaped row (text origin, text destination, numeric duration)
/// contributes its duration to the edge origin -> destination; any row of
/// another shape is silently skipped. After all rows are consumed, each
/// edge's average and standard deviation are computed from its observation
/// list. An empty input yields an empty graph.
pub fn build_airport(rows: &Vec<Vec<ColumnVal>>) -> (g: Graph)
    requires
        rows@.len() <= MAX_ROWS,
    ensures
        aggregated(g, rows@),
{
    let mut entries: Vec<OriginEntry> = Vec::new();
    let mut k: usize = 0;
    proof {
        assert(rows@.take(0) =~= Seq::<Vec<ColumnVal>>::empty());
        assert forall|o: Seq<char>, d: Seq<char>|
            (#[trigger] obs_of(rows@.take(0), o, d)).len() == 0 by {
            assert(rows@.take(0) =~= Seq::<Vec<ColumnVal>>::empty());
        }
    }
    while k < rows.len()
        invariant
            rows@.len() <= MAX_ROWS,
            k <= rows@.len(),
            partial_state(entries@, rows@, k as int),
        decreases rows@.len() - k,
    {
        let ghost es0: Seq<OriginEntry> = entries@;
        let ghost rowk: Vec<ColumnVal> = rows@[k as int];
        let row: &Vec<ColumnVal> = &rows[k];
        let mut handled: bool = false;
        if row.len() >= 3 {
            if let ColumnVal::One(orig) = &row[0] {
                if let ColumnVal::One(dest) = &row[1] {
                    if let ColumnVal::Two(time) = &row[2] {
                        let tval: u32 = *time;
                        proof {
                            assert(row_ok(rowk));
                            assert(row_origin(rowk) == orig@);
                            assert(row_dest(rowk) == dest@);
                            assert(row_time(rowk) == tval);
                        }
                        add_observation(&mut entries, orig, dest, tval, Ghost(rows@), Ghost(k as int));
                        handled = true;
                    }
                }
            }
        }
        if !handled {
            proof {
                assert(!row_ok(rowk));
                lemma_obs_take_step(rows@, k as int);
                assert forall|o: Seq<char>, d: Seq<char>|
                    #[trigger] obs_of(rows@.take(k + 1), o, d) == obs_of(
                        rows@.take(k as int),
                        o,
                        d,
                    ) by {}
            }
        }
        k = k + 1;
    }
    proof {
        assert(rows@.take(rows@.len() as int) =~= rows@);
    }
    finalize_stats(&mut entries, Ghost(rows@));
    Graph { entries }
}

/// Recomputes every edge's average and standard deviation from its
/// observation list, completing the aggregation.
fn finalize_stats(entries: &mut Vec<OriginEntry>, Ghost(rows): Ghost<Seq<Vec<ColumnVal>>>)
    requires
        rows.len() <= MAX_ROWS,
        partial_state(old(entries)@, rows, rows.len() as int),
    ensures
        aggregated((Graph { entries: *final(entries) }), rows),
{
    let ghost es1: Seq<OriginEntry> = entries@;
    proof {
        assert(rows.take(rows.len() as int) =~= rows);
    }
    let mut x: usize = 0;
    while x < entries.len()
        invariant
            rows.len() <= MAX_ROWS,
            x <= entries@.len(),
            entries@.len() == es1.len(),
            partial_state(es1, rows, rows.len() as int),
            forall|i: int|
                0 <= i < es1.len() ==> (#[trigger] entries@[i]).origin@ == es1[i].origin@
                    && entries@[i].edges@.len() == es1[i].edges@.len(),
            forall|i: int, a: int|
                0 <= i < es1.len() && 0 <= a < es1[i].edges@.len() ==> (#[trigger] entries@[i].edges@[a]).dest@
                    == es1[i].edges@[a].dest@ && entries@[i].edges@[a].stats.times@
                    == es1[i].edges@[a].stats.times@ && entries@[i].edges@[a].stats.count
                    == es1[i].edges@[a].stats.count,
            forall|i: int, a: int|
                0 <= i < x && 0 <= a < es1[i].edges@.len() ==> stats_wf(
                    (#[trigger] entries@[i].edges@[a]).stats,
                ),
        decreases es1.len() - x,
    {
        let mut y: usize = 0;
        let ghost esx: Seq<OriginEntry> = entries@;
        while y < entries[x].edges.len()
            invariant
                rows.len() <= MAX_ROWS,
                x < entries@.len(),
                y <= entries@[x as int].edges@.len(),
                entries@.len() == esx.len(),
                forall|i: int| 0 <= i < esx.len() && i != x ==> entries@[i] == esx[i],
                entries@[x as int].origin@ == esx[x as int].origin@,
                entries@[x as int].edges@.len() == esx[x as int].edges@.len(),
                forall|a: int|
                    0 <= a < esx[x as int].edges@.len() ==> (
                #[trigger] entries@[x as int].edges@[a]).dest@ == esx[x as int].edges@[a].dest@
                    && entries@[x as int].edges@[a].stats.times@
                    == esx[x as int].edges@[a].stats.times@
                    && entries@[x as int].edges@[a].stats.count
                    == esx[x as int].edges@[a].stats.count,
                forall|a: int|
                    0 <= a < esx[x as int].edges@.len() ==> {
                        let st = (#[trigger] esx[x as int].edges@[a]).stats;
                        st.count == st.times@.len() && 1 <= st.times@.len() <= MAX_ROWS
                    },
                forall|a: int|
                    0 <= a < y ==> stats_wf((#[trigger] entries@[x as int].edges@[a]).stats),
            decreases esx[x as int].edges@.len() - y,
        {
            let (a, s) = calculate(&entries[x].edges[y].stats.times);
            entries[x].edges[y].stats.average = a;
            entries[x].edges[y].stats.std_dev = s;
            y = y + 1;
        }
        x = x + 1;
        proof {
            assert forall|i: int|
                0 <= i < es1.len() implies (#[trigger] entries@[i]).origin@ == es1[i].origin@
                && entries@[i].edges@.len() == es1[i].edges@.len() by {
                if i != x - 1 {
                    assert(entries@[i] == esx[i]);
                }
            }
            assert forall|i: int, a: int|
                0 <= i < es1.len() && 0 <= a < es1[i].edges@.len() implies (
            #[trigger] entries@[i].edges@[a]).dest@ == es1[i].edges@[a].dest@
                && entries@[i].edges@[a].stats.times@ == es1[i].edges@[a].stats.times@
                && entries@[i].edges@[a].stats.count == es1[i].edges@[a].stats.count by {
                if i != x - 1 {
                    assert(entries@[i] == esx[i]);
                    assert(esx[i].edges@[a].dest@ == es1[i].edges@[a].dest@);
                } else {
                    assert(entries@[i].edges@[a].dest@ == esx[i].edges@[a].dest@);
                    assert(esx[i].edges@[a].dest@ == es1[i].edges@[a].dest@);
                }
            }
            assert forall|i: int, a: int|
                0 <= i < x && 0 <= a < es1[i].edges@.len() implies stats_wf(
                (#[trigger] entries@[i].edges@[a]).stats,
            ) by {
                if i != x - 1 {
                    assert(entries@[i] == esx[i]);
                    assert(stats_wf(esx[i].edges@[a].stats));
                }
            }
        }
    }
    proof {
        let es2 = entries@;
        let g = Graph { entries: *entries };
        assert(origin_keys(es2) =~= origin_keys(es1));
        assert forall|i: int| 0 <= i < es2.len() implies dest_keys(#[trigger] es2[i].edges@)
            == dest_keys(es1[i].edges@) by {
            assert(dest_keys(es2[i].edges@) =~= dest_keys(es1[i].edges@));
        }
        lemma_total_edges_same(es1, es2);
        assert forall|o: Seq<char>, d: Seq<char>| #[trigger] has_edge_in(es2, o, d)
            == has_edge_in(es1, o, d) by {
            if find_origin(es1, o) >= 0 {
                lemma_find_key_props(origin_keys(es1), o);
                let fo = find_origin(es1, o);
                assert(dest_keys(es2[fo].edges@) == dest_keys(es1[fo].edges@));
            }
        }
        assert forall|o: Seq<char>, d: Seq<char>| #[trigger] has_edge_in(es2, o, d) implies
            edge_stats_in(es2, o, d).times@ == obs_of(rows, o, d) by {
            lemma_find_key_props(origin_keys(es1), o);
            let fo = find_origin(es1, o);
            assert(dest_keys(es2[fo].edges@) == dest_keys(es1[fo].edges@));
            lemma_find_key_props(dest_keys(es1[fo].edges@), d);
            assert(obs_of(rows.take(rows.len() as int), o, d) == obs_of(rows, o, d));
        }
    }
}

/// The recorded statistics of any edge of a well-formed graph satisfy
/// `stats_wf`, and the average fits below `u32::MAX`.
pub proof fn lemma_edge_stats_wf(g: Graph, o: Seq<char>, d: Seq<char>)
    requires
        graph_wf(g),
        has_edge(g, o, d),
    ensures
        stats_wf(edge_stats(g, o, d)),
        0 <= edge_weight(g, o, d) <= 0xFFFF_FFFF,
{
    let es = g.entries@;
    lemma_find_key_props(origin_keys(es), o);
    let fo = find_origin(es, o);
    lemma_find_key_props(dest_keys(es[fo].edges@), d);
    let fd = find_dest(es[fo].edges@, d);
    assert(stats_wf(es[fo].edges@[fd].stats));
    lemma_average_bound(es[fo].edges@[fd].stats.times@);
}

/// The floor of the mean of a non-empty list of `u32` durations lies
/// between 0 and `u32::MAX`.
pub proof fn lemma_average_bound(s: Seq<u32>)
    requires
        s.len() >= 1,
    ensures
        0 <= seq_sum(s) / (s.len() as int) <= 0xFFFF_FFFF,
{
    let n = s.len() as int;
    lemma_seq_sum_bounds(s);
    vstd::arithmetic::div_mod::lemma_div_pos_is_pos(seq_sum(s), n);
    vstd::arithmetic::div_mod::lemma_div_is_ordered(seq_sum(s), n * 0xFFFF_FFFF, n);
    vstd::arithmetic::div_mod::lemma_div_multiples_vanish(0xFFFF_FFFF, n);
    assert(n * 0xFFFF_FFFF == 0xFFFF_FFFF * n);
}

proof fn lemma_sum_sq_dev_zero_terms(s: Seq<u32>, n: int, total: int)
    ensures
        sum_sq_dev(s, n, total) >= 0,
        sum_sq_dev(s, n, total) == 0 <==> (forall|i: int|
            0 <= i < s.len() ==> n * s[i] == total),
    decreases s.len(),
{
    if s.len() > 0 {
        lemma_sum_sq_dev_zero_terms(s.drop_last(), n, total);
        let t = n * s.last() - total;
        assert(t * t >= 0 && (t * t == 0 <==> t == 0)) by (nonlinear_arith);
        if sum_sq_dev(s, n, total) == 0 {
            assert forall|i: int| 0 <= i < s.len() implies n * s[i] == total by {
                if i < s.len() - 1 {
                    assert(s.drop_last()[i] == s[i]);
                }
            }
        }
        if forall|i: int| 0 <= i < s.len() ==> n * s[i] == total {
            assert forall|i: int| 0 <= i < s.drop_last().len() implies n * s.drop_last()[i]
                == total by {
                assert(s.drop_last()[i] == s[i]);
            }
        }
    }
}

proof fn lemma_seq_sum_constant(s: Seq<u32>, v: u32)
    requires
        forall|i: int| 0 <= i < s.len() ==> s[i] == v,
    ensures
        seq_sum(s) == s.len() * v,
    decreases s.len(),
{
    if s.len() > 0 {
        assert(forall|i: int| 0 <= i < s.drop_last().len() ==> s.drop_last()[i] == s[i]);
        lemma_seq_sum_constant(s.drop_last(), v);
        assert(s.last() == v);
        assert((s.len() - 1) * v + v == s.len() * v) by (nonlinear_arith);
    }
}

/// Law: for every non-empty observation list, the scaled sum of squared
/// deviations is non-negative, and it is zero precisely when all
/// observations are equal. This is the exact-arithmetic form of the claim
/// that the population standard deviation is zero only for constant data.
pub proof fn lemma_variance_zero_iff_all_equal(s: Seq<u32>)
    requires
        s.len() >= 1,
    ensures
        sum_sq_dev(s, s.len() as int, seq_sum(s)) >= 0,
        sum_sq_dev(s, s.len() as int, seq_sum(s)) == 0 <==> (forall|i: int, j: int|
            0 <= i < s.len() && 0 <= j < s.len() ==> s[i] == s[j]),
{
    let n = s.len() as int;
    let total = seq_sum(s);
    lemma_sum_sq_dev_zero_terms(s, n, total);
    if sum_sq_dev(s, n, total) == 0 {
        assert forall|i: int, j: int| 0 <= i < s.len() && 0 <= j < s.len() implies s[i]
            == s[j] by {
            assert(n * s[i] == total && n * s[j] == total);
            assert(n * s[i] == n * s[j] && n >= 1 ==> s[i] == s[j]) by (nonlinear_arith);
        }
    }
    if forall|i: int, j: int| 0 <= i < s.len() && 0 <= j < s.len() ==> s[i] == s[j] {
        lemma_seq_sum_constant(s, s[0]);
        assert forall|i: int| 0 <= i < s.len() implies n * s[i] == total by {
            assert(s[i] == s[0]);
            assert(total == n * s[0]);
        }
    }
}

/// Law: an edge whose observations are all equal has standard deviation
/// zero. (At the integer precision of `std_dev` the converse direction
/// holds only for the exact variance, which `lemma_variance_zero_iff_all_equal`
/// states; rounding can floor a positive variance below one.)
pub proof fn lemma_equal_observations_zero_std_dev(st: FlightStats)
    requires
        stats_wf(st),
        forall|i: int, j: int|
            0 <= i < st.times@.len() && 0 <= j < st.times@.len() ==> st.times@[i] == st.times@[j],
    ensures
        st.std_dev == 0,
{
    let s = st.times@;
    let n = s.len() as int;
    lemma_variance_zero_iff_all_equal(s);
    assert(sum_sq_dev(s, n, seq_sum(s)) == 0);
    assert(variance_floor(s) == 0int / (n * n * n));
    assert(n * n * n >= 1) by (nonlinear_arith)
        requires
            n >= 1,
    ;
    vstd::arithmetic::div_mod::lemma_div_pos_is_pos(0, n * n * n);
    vstd::arithmetic::div_mod::lemma_div_is_ordered(0, 0, n * n * n);
    assert(0int / (n * n * n) == 0) by {
        vstd::arithmetic::div_mod::lemma_div_multiples_vanish(0, n * n * n);
    }
    assert(st.std_dev * st.std_dev <= 0);
    assert(st.std_dev == 0) by (nonlinear_arith)
        requires
            st.std_dev * st.std_dev <= 0,
    ;
}

/// Law: when every row carries the same origin and destination pair and is
/// well shaped, the aggregated edge records all of them: its count is the
/// number of rows and its average is the floor of their arithmetic mean.
pub proof fn lemma_same_pair_aggregation(
    g: Graph,
    rows: Seq<Vec<ColumnVal>>,
    o: Seq<char>,
    d: Seq<char>,
)
    requires
        aggregated(g, rows),
        rows.len() >= 1,
        forall|k: int|
            0 <= k < rows.len() ==> row_ok(#[trigger] rows[k]) && row_origin(rows[k]) == o
                && row_dest(rows[k]) == d,
    ensures
        has_edge(g, o, d),
        edge_stats(g, o, d).times@ == rows.map_values(|r: Vec<ColumnVal>| row_time(r)),
        edge_stats(g, o, d).count == rows.len(),
        edge_stats(g, o, d).average == seq_sum(rows.map_values(|r: Vec<ColumnVal>| row_time(r)))
            / (rows.len() as int),
{
    lemma_obs_all_match(rows, o, d);
    assert(obs_of(rows, o, d).len() == rows.len());
    assert(has_edge(g, o, d));
    lemma_edge_stats_wf(g, o, d);
}

proof fn lemma_obs_all_match(rows: Seq<Vec<ColumnVal>>, o: Seq<char>, d: Seq<char>)
    requires
        forall|k: int|
            0 <= k < rows.len() ==> row_ok(#[trigger] rows[k]) && row_origin(rows[k]) == o
                && row_dest(rows[k]) == d,
    ensures
        obs_of(rows, o, d) == rows.map_values(|r: Vec<ColumnVal>| row_time(r)),
    decreases rows.len(),
{
    let f = |r: Vec<ColumnVal>| row_time(r);
    if rows.len() == 0 {
        assert(obs_of(rows, o, d) =~= rows.map_values(f));
    } else {
        let front = rows.drop_last();
        assert forall|k: int| 0 <= k < front.len() implies row_ok(#[trigger] front[k])
            && row_origin(front[k]) == o && row_dest(front[k]) == d by {
            assert(front[k] == rows[k]);
        }
        lemma_obs_all_match(front, o, d);
        assert(obs_of(rows, o, d) == obs_of(front, o, d).push(row_time(rows.last())));
        assert(rows.map_values(f) =~= front.map_values(f).push(f(rows.last())));
    }
}

} // verus!

