//! What the prover commits: the witness, the weights, the lookup table, the limbs
//! and the multiplicities.
use vstd::prelude::*;
use vstd::arithmetic::power2::pow2;
use crate::field::Field;
use crate::logup::lookup;
use crate::multilinear;
use crate::proofsys::canonical;
use crate::proofsys::canonical::{Canonical, Kind, WeightKind, WTE};
use crate::proofsys::commit;
use crate::proofsys::commit::CommitSet;
use crate::proofsys::faithful::segments;
use crate::proofsys::faithful::segments::{
    CheckView, DescView, Descriptor, LimbCheckSpec, CHECKS, E, TABLE_IN, TABLE_OUT, TABLE_TYPE,
};
use crate::proofsys::faithful::shapes;
use crate::proofsys::faithful::table;
use crate::proofsys::faithful::table::{R12_BASE, TYPE_RANGE12};
use crate::proofsys::faithful::values;
use crate::proofsys::grid;
use crate::proofsys::model::ModelWeights;
use crate::proofsys::protocol::EF;
use crate::proofsys::witness::{Config, Witness, WitnessView};

verus! {

/// The value that a check's limbs recompose to, at vertex `i`.
pub open spec fn target_at(
    c: CheckView,
    polys: Map<Seq<char>, Seq<EF>>,
    config: Config,
    i: int,
) -> EF {
    let n = canonical::all_bits(config, c.value);
    let start = match c.prod {
        Some((l, r, k)) => c.constant + (k * values::vertex_value(l, polys, n, i))
            * values::vertex_value(r, polys, n, i),
        None => c.constant,
    };
    values::vertex_affine(start, c.linears, polys, n, i)
}

/// Limb `l` of `t`, with 16 bits.
pub open spec fn limb_of(t: int, l: int) -> int {
    if l == 0 {
        t % 65536
    } else {
        (t / 65536) % 65536
    }
}

/// The limbs of a check: the limb index on the lowest variable.
pub open spec fn limb_table(c: CheckView, polys: Map<Seq<char>, Seq<EF>>, config: Config) -> Seq<EF> {
    Seq::new(
        pow2(canonical::all_bits(config, c.value) + 1),
        |k: int|
            EF::embed(limb_of(values::residue(target_at(c, polys, config, k / 2)), k % 2)),
    )
}

/// A target is an integer of two limbs.
pub open spec fn target_fits(
    c: CheckView,
    polys: Map<Seq<char>, Seq<EF>>,
    config: Config,
    i: int,
) -> bool {
    &&& values::is_base(target_at(c, polys, config, i))
    &&& values::residue(target_at(c, polys, config, i)) < 0x1_0000_0000
}

/// All targets are integers of two limbs.
pub open spec fn targets_fit(c: CheckView, polys: Map<Seq<char>, Seq<EF>>, config: Config) -> bool {
    forall|i: int|
        0 <= i < pow2(canonical::all_bits(config, c.value)) ==> #[trigger] target_fits(
            c,
            polys,
            config,
            i,
        )
}

/// What the values of a check ask for.
pub open spec fn check_ready(
    c: CheckView,
    polys: Map<Seq<char>, Seq<EF>>,
    config: Config,
) -> bool {
    let n = canonical::all_bits(config, c.value);
    &&& canonical::sizes_fit(config)
    &&& pow2(n + 1) <= usize::MAX
    &&& values::linears_ready(c.linears, polys, n)
    &&& c.prod is Some ==> (c.prod->0).0.fits(n) && (c.prod->0).0.stored(polys) && (
    c.prod->0).1.fits(n) && (c.prod->0).1.stored(polys)
}

/// The value that a check's limbs recompose to, at vertex `i`.
fn limb_target_at(spec: &LimbCheckSpec, set: &CommitSet, vars: usize, config: &Config, i: usize) -> (r:
    EF)
    requires
        check_ready(spec.contents(), set.kept(), *config),
        vars == canonical::all_bits(*config, spec.value),
    ensures
        r == target_at(spec.contents(), set.kept(), *config, i as int),
{
    let mut start: EF = spec.constant;
    match &spec.prod {
        Some(prod) => {
            let a = values::source_at_index(&prod.0, set, i, vars);
            let b = values::source_at_index(&prod.1, set, i, vars);
            start = start.add(prod.2.mul(a).mul(b));
        },
        None => {},
    }
    values::affine_at_index(start, &spec.linears, set, i, vars)
}

/// The limbs of a check.
fn limb_poly_for(spec: &LimbCheckSpec, set: &CommitSet, config: &Config) -> (r: Vec<EF>)
    requires
        check_ready(spec.contents(), set.kept(), *config),
        targets_fit(spec.contents(), set.kept(), *config),
    ensures
        r@ == limb_table(spec.contents(), set.kept(), *config),
{
    let ghost c = spec.contents();
    let ghost polys = set.kept();
    proof {
        canonical::lemma_layout_fits(*config, spec.value);
    }
    let vars: usize = canonical::layout_of(config, spec.value).num_vars();
    proof {
        multilinear::lemma_pow2_step((vars + 1) as nat);
    }
    let total: usize = commit::two_to(vars);
    let mut out: Vec<EF> = Vec::new();
    let mut i: usize = 0;
    while i < total
        invariant
            i <= total,
            total == pow2(vars as nat),
            vars == canonical::all_bits(*config, spec.value),
            c == spec.contents(),
            polys == set.kept(),
            check_ready(c, polys, *config),
            targets_fit(c, polys, *config),
            out@.len() == 2 * i,
            forall|k: int|
                0 <= k < 2 * i ==> #[trigger] out@[k] == EF::embed(
                    limb_of(values::residue(target_at(c, polys, *config, k / 2)), k % 2),
                ),
        decreases total - i,
    {
        assert(target_fits(c, polys, *config, i as int));
        let t: u64 = values::ef_to_u64(limb_target_at(spec, set, vars, config, i));
        out.push(EF::from_u64(t % 65536));
        out.push(EF::from_u64((t / 65536) % 65536));
        i += 1;
    }
    proof {
        multilinear::lemma_pow2_step((vars + 1) as nat);
    }
    assert(out@ =~= limb_table(c, polys, *config));
    out
}

/// The table row of a segment's row `i`.
pub open spec fn row_index(
    d: DescView,
    polys: Map<Seq<char>, Seq<EF>>,
    config: Config,
    w: ModelWeights,
    wit: WitnessView,
    i: int,
) -> int {
    d.base + values::residue(values::row_input(d, polys, config, w, wit, i))
}

/// The table row of a segment's row `i` exists.
pub open spec fn row_fits(
    d: DescView,
    polys: Map<Seq<char>, Seq<EF>>,
    config: Config,
    w: ModelWeights,
    wit: WitnessView,
    i: int,
) -> bool {
    &&& values::is_base(values::row_input(d, polys, config, w, wit, i))
    &&& row_index(d, polys, config, w, wit, i) < table::table_len(config, w)
}

/// All table rows of a segment exist.
pub open spec fn rows_fit(
    d: DescView,
    polys: Map<Seq<char>, Seq<EF>>,
    config: Config,
    w: ModelWeights,
    wit: WitnessView,
) -> bool {
    forall|i: int|
        0 <= i < pow2(d.vars) ==> #[trigger] row_fits(d, polys, config, w, wit, i)
}

/// The table rows of a segment.
pub open spec fn row_indices(
    d: DescView,
    polys: Map<Seq<char>, Seq<EF>>,
    config: Config,
    w: ModelWeights,
    wit: WitnessView,
) -> Seq<int> {
    Seq::new(pow2(d.vars), |i: int| row_index(d, polys, config, w, wit, i))
}

/// The table rows of the first `n` segments.
pub open spec fn all_indices(
    s: Seq<DescView>,
    polys: Map<Seq<char>, Seq<EF>>,
    config: Config,
    w: ModelWeights,
    wit: WitnessView,
    n: nat,
) -> Seq<int>
    decreases n,
{
    if n == 0 {
        Seq::empty()
    } else {
        all_indices(s, polys, config, w, wit, (n - 1) as nat) + row_indices(
            s[n - 1],
            polys,
            config,
            w,
            wit,
        )
    }
}

pub proof fn lemma_occurrences_push(s: Seq<int>, x: int, j: int)
    ensures
        lookup::occurrences(s.push(x), j) == lookup::occurrences(s, j) + (if x == j {
            1nat
        } else {
            0nat
        }),
        lookup::occurrences(s, j) <= s.len(),
    decreases s.len(),
{
    assert(s.push(x).drop_last() =~= s);
    if s.len() > 0 {
        lemma_occurrences_push(s.drop_last(), x, j);
    }
}

/// Number of padding rows of the query.
pub open spec fn padding_rows(config: Config, w: ModelWeights) -> int {
    pow2(segments::query_bits(config, w)) - segments::total_len(config, w)
}

/// How often table row `j` is looked up. The padding rows look up the first row.
pub open spec fn multiplicity_at(
    polys: Map<Seq<char>, Seq<EF>>,
    config: Config,
    w: ModelWeights,
    wit: WitnessView,
    j: int,
) -> int {
    let s = segments::all_segments(config, w);
    lookup::occurrences(all_indices(s, polys, config, w, wit, s.len()), j) + (if j == R12_BASE {
        padding_rows(config, w)
    } else {
        0
    })
}

/// The multiplicities of all table rows.
pub open spec fn multiplicities(
    polys: Map<Seq<char>, Seq<EF>>,
    config: Config,
    w: ModelWeights,
    wit: WitnessView,
) -> Seq<EF> {
    Seq::new(
        table::table_len(config, w),
        |j: int| EF::embed(multiplicity_at(polys, config, w, wit, j)),
    )
}

/// What all segments' values ask for.
pub open spec fn all_values_ready(
    s: Seq<DescView>,
    polys: Map<Seq<char>, Seq<EF>>,
    config: Config,
    w: ModelWeights,
    witness: Witness,
) -> bool {
    forall|i: int|
        0 <= i < s.len() ==> #[trigger] values::values_ready(s[i], polys, config, w, witness)
}

/// All table rows of all segments exist.
pub open spec fn all_rows_fit(
    s: Seq<DescView>,
    polys: Map<Seq<char>, Seq<EF>>,
    config: Config,
    w: ModelWeights,
    wit: WitnessView,
) -> bool {
    forall|i: int| 0 <= i < s.len() ==> #[trigger] rows_fit(s[i], polys, config, w, wit)
}

pub proof fn lemma_indices_len(
    s: Seq<DescView>,
    polys: Map<Seq<char>, Seq<EF>>,
    config: Config,
    w: ModelWeights,
    wit: WitnessView,
    n: nat,
)
    ensures
        all_indices(s, polys, config, w, wit, n).len() == segments::length_before(s, n),
    decreases n,
{
    if n > 0 {
        lemma_indices_len(s, polys, config, w, wit, (n - 1) as nat);
    }
}

pub proof fn lemma_placed_length(s: Seq<DescView>, n: nat)
    requires
        n <= s.len(),
    ensures
        segments::length_before(segments::placed(s), n) == segments::length_before(s, n),
    decreases n,
{
    if n > 0 {
        lemma_placed_length(s, (n - 1) as nat);
    }
}

/// Counts one segment's table rows.
fn count_rows(
    set: &CommitSet,
    config: &Config,
    weights: &ModelWeights,
    witness: &Witness,
    d: &Descriptor,
    counts: &mut Vec<u64>,
    seen: Ghost<Seq<int>>,
)
    requires
        values::values_ready(d.contents(), set.kept(), *config, *weights, *witness),
        rows_fit(d.contents(), set.kept(), *config, *weights, witness.contents()),
        old(counts)@.len() == table::table_len(*config, *weights),
        seen@.len() + pow2(d.vars as nat) <= usize::MAX,
        forall|j: int|
            0 <= j < old(counts)@.len() ==> #[trigger] old(counts)@[j] == lookup::occurrences(seen@, j),
    ensures
        final(counts)@.len() == old(counts)@.len(),
        forall|j: int|
            0 <= j < final(counts)@.len() ==> #[trigger] final(counts)@[j] == lookup::occurrences(
                seen@ + row_indices(
                    d.contents(),
                    set.kept(),
                    *config,
                    *weights,
                    witness.contents(),
                ),
                j,
            ),
{
    let ghost view = d.contents();
    let ghost polys = set.kept();
    let ghost wit = witness.contents();
    let ghost rows = row_indices(view, polys, *config, *weights, wit);
    let (ins, _outs) = values::segment_values(set, config, weights, witness, d);
    let mut i: usize = 0;
    assert(seen@ + rows.take(0) =~= seen@);
    while i < ins.len()
        invariant
            i <= ins@.len(),
            view == d.contents(),
            polys == set.kept(),
            wit == witness.contents(),
            ins@ == values::row_inputs(view, polys, *config, *weights, wit),
            rows == row_indices(view, polys, *config, *weights, wit),
            rows_fit(view, polys, *config, *weights, wit),
            counts@.len() == table::table_len(*config, *weights),
            table::table_len(*config, *weights) <= usize::MAX,
            seen@.len() + pow2(view.vars) <= usize::MAX,
            forall|j: int|
                0 <= j < counts@.len() ==> #[trigger] counts@[j] == lookup::occurrences(
                    seen@ + rows.take(i as int),
                    j,
                ),
        decreases ins.len() - i,
    {
        assert(row_fits(view, polys, *config, *weights, wit, i as int));
        let t: u64 = values::ef_to_u64(ins[i]);
        proof {
            assert(t == values::residue(ins@[i as int]));
            assert(view.base + t < table::table_len(*config, *weights));
        }
        let idx: usize = d.table_base + t as usize;
        let ghost now = seen@ + rows.take(i as int);
        assert(counts.len() == counts@.len());
        proof {
            assert(idx == rows[i as int]);
            lemma_occurrences_push(now, idx as int, idx as int);
            assert(seen@ + rows.take(i + 1) =~= now.push(rows[i as int]));
        }
        let c: u64 = counts[idx];
        let ghost before = counts@;
        counts.set(idx, c + 1);
        proof {
            assert forall|j: int| 0 <= j < counts@.len() implies #[trigger] counts@[j]
                == lookup::occurrences(seen@ + rows.take(i + 1), j) by {
                lemma_occurrences_push(now, idx as int, j);
                assert(before[j] == lookup::occurrences(now, j));
            }
        }
        i += 1;
    }
    assert(rows.take(i as int) =~= rows);
}

/// The total length of the segments of a query.
pub proof fn lemma_total(config: Config, w: ModelWeights)
    ensures
        ({
            let s = segments::all_segments(config, w);
            segments::length_before(s, s.len()) == segments::total_len(config, w)
        }),
        segments::total_len(config, w) <= pow2(segments::query_bits(config, w)),
{
    reveal(segments::all_segments);
    let t = segments::sorted(segments::listed(config, w));
    lemma_placed_length(t, t.len());
    commit::lemma_ceil_pow(segments::total_len(config, w) as int);
}

/// How often each table row is looked up by the segments, and their total length.
fn segment_counts(
    set: &CommitSet,
    config: &Config,
    weights: &ModelWeights,
    witness: &Witness,
    descs: &Vec<Descriptor>,
) -> (r: (Vec<u64>, usize))
    requires
        table::table_fits(*config, *weights),
        segments::length_before(segments::desc_views(descs@), descs@.len()) <= usize::MAX,
        all_values_ready(
            segments::desc_views(descs@),
            set.kept(),
            *config,
            *weights,
            *witness,
        ),
        all_rows_fit(
            segments::desc_views(descs@),
            set.kept(),
            *config,
            *weights,
            witness.contents(),
        ),
    ensures
        ({
            let s = segments::desc_views(descs@);
            let all = all_indices(
                s,
                set.kept(),
                *config,
                *weights,
                witness.contents(),
                s.len(),
            );
            &&& r.0@.len() == table::table_len(*config, *weights)
            &&& forall|j: int|
                0 <= j < r.0@.len() ==> #[trigger] r.0@[j] == lookup::occurrences(all, j)
            &&& r.1 == segments::length_before(s, s.len())
        }),
{
    let ghost s = segments::desc_views(descs@);
    let ghost polys = set.kept();
    let ghost wit = witness.contents();
    let len: usize = table::table_size(config, weights);
    let mut counts: Vec<u64> = Vec::new();
    let mut k: usize = 0;
    while k < len
        invariant
            k <= len,
            counts@.len() == k,
            forall|j: int| 0 <= j < k ==> #[trigger] counts@[j] == 0,
        decreases len - k,
    {
        counts.push(0);
        k += 1;
    }
    let ghost mut seen: Seq<int> = Seq::empty();
    let mut total: usize = 0;
    let mut i: usize = 0;
    while i < descs.len()
        invariant
            i <= descs@.len(),
            s == segments::desc_views(descs@),
            polys == set.kept(),
            wit == witness.contents(),
            all_values_ready(s, polys, *config, *weights, *witness),
            all_rows_fit(s, polys, *config, *weights, wit),
            counts@.len() == table::table_len(*config, *weights),
            segments::length_before(s, s.len()) <= usize::MAX,
            seen == all_indices(s, polys, *config, *weights, wit, i as nat),
            total == segments::length_before(s, i as nat),
            forall|j: int|
                0 <= j < counts@.len() ==> #[trigger] counts@[j] == lookup::occurrences(seen, j),
        decreases descs.len() - i,
    {
        proof {
            assert(s[i as int] == descs@[i as int].contents());
            assert(values::values_ready(s[i as int], polys, *config, *weights, *witness));
            assert(rows_fit(s[i as int], polys, *config, *weights, wit));
            lemma_indices_len(s, polys, *config, *weights, wit, i as nat);
            segments::lemma_length_mono(s, (i + 1) as nat, s.len());
        }
        count_rows(set, config, weights, witness, &descs[i], &mut counts, Ghost(seen));
        proof {
            seen = seen + row_indices(s[i as int], polys, *config, *weights, wit);
        }
        total = total + commit::two_to(descs[i].vars);
        i += 1;
    }
    (counts, total)
}

/// How often each table row is looked up.
fn multiplicity_counts(
    set: &CommitSet,
    config: &Config,
    weights: &ModelWeights,
    witness: &Witness,
    descs: &Vec<Descriptor>,
) -> (r: Vec<EF>)
    requires
        segments::query_fits(*config, *weights),
        segments::desc_views(descs@) == segments::all_segments(*config, *weights),
        all_values_ready(
            segments::desc_views(descs@),
            set.kept(),
            *config,
            *weights,
            *witness,
        ),
        all_rows_fit(
            segments::desc_views(descs@),
            set.kept(),
            *config,
            *weights,
            witness.contents(),
        ),
    ensures
        r@ == multiplicities(set.kept(), *config, *weights, witness.contents()),
{
    let ghost s = segments::desc_views(descs@);
    let ghost polys = set.kept();
    let ghost wit = witness.contents();
    let ghost all = all_indices(s, polys, *config, *weights, wit, s.len());
    proof {
        lemma_total(*config, *weights);
        lemma_indices_len(s, polys, *config, *weights, wit, s.len());
        assert(s.len() == descs@.len());
    }
    let (counts, total) = segment_counts(set, config, weights, witness, descs);
    let padded: usize = commit::pow_ceil(total);
    let pad: u64 = (padded - total) as u64;
    let mut out: Vec<EF> = Vec::new();
    let mut j: usize = 0;
    while j < counts.len()
        invariant
            j <= counts@.len(),
            counts@.len() == table::table_len(*config, *weights),
            pad == padding_rows(*config, *weights),
            s == segments::all_segments(*config, *weights),
            all == all_indices(s, polys, *config, *weights, wit, s.len()),
            all.len() + pad <= usize::MAX,
            forall|j: int|
                0 <= j < counts@.len() ==> #[trigger] counts@[j] == lookup::occurrences(all, j),
            out@.len() == j,
            forall|k: int|
                0 <= k < j ==> #[trigger] out@[k] == EF::embed(
                    multiplicity_at(polys, *config, *weights, wit, k),
                ),
        decreases counts.len() - j,
    {
        proof {
            lemma_occurrences_push(all, 0, j as int);
        }
        let mut c: u64 = counts[j];
        if j == R12_BASE {
            c = c + pad;
        }
        out.push(EF::from_u64(c));
        j += 1;
    }
    assert(out@ =~= multiplicities(polys, *config, *weights, wit));
    out
}

/// The folded rows of a segment.
pub open spec fn folded_rows(
    alpha: EF,
    d: DescView,
    polys: Map<Seq<char>, Seq<EF>>,
    config: Config,
    w: ModelWeights,
    wit: WitnessView,
) -> Seq<EF> {
    Seq::new(
        pow2(d.vars),
        |i: int|
            table::fold(
                alpha,
                values::row_input(d, polys, config, w, wit, i),
                values::row_output(d, polys, i),
                EF::embed(d.ty),
            ),
    )
}

/// The folded rows of the first `n` segments.
pub open spec fn query_rows(
    alpha: EF,
    s: Seq<DescView>,
    polys: Map<Seq<char>, Seq<EF>>,
    config: Config,
    w: ModelWeights,
    wit: WitnessView,
    n: nat,
) -> Seq<EF>
    decreases n,
{
    if n == 0 {
        Seq::empty()
    } else {
        query_rows(alpha, s, polys, config, w, wit, (n - 1) as nat) + folded_rows(
            alpha,
            s[n - 1],
            polys,
            config,
            w,
            wit,
        )
    }
}

/// The folded padding row.
pub open spec fn default_row(alpha: EF) -> EF {
    table::fold(alpha, EF::zero(), EF::zero(), EF::embed(TYPE_RANGE12 as int))
}

/// The query: all segments, then padding.
pub open spec fn query_table(
    alpha: EF,
    polys: Map<Seq<char>, Seq<EF>>,
    config: Config,
    w: ModelWeights,
    wit: WitnessView,
) -> Seq<EF> {
    let s = segments::all_segments(config, w);
    query_rows(alpha, s, polys, config, w, wit, s.len()) + Seq::new(
        padding_rows(config, w) as nat,
        |i: int| default_row(alpha),
    )
}

/// The folded rows of a segment.
fn fold_segment(
    set: &CommitSet,
    config: &Config,
    weights: &ModelWeights,
    witness: &Witness,
    d: &Descriptor,
    alpha: EF,
) -> (r: Vec<EF>)
    requires
        values::values_ready(d.contents(), set.kept(), *config, *weights, *witness),
    ensures
        r@ == folded_rows(
            alpha,
            d.contents(),
            set.kept(),
            *config,
            *weights,
            witness.contents(),
        ),
{
    let (ins, outs) = values::segment_values(set, config, weights, witness, d);
    let ghost goal = folded_rows(
        alpha,
        d.contents(),
        set.kept(),
        *config,
        *weights,
        witness.contents(),
    );
    let mut out: Vec<EF> = Vec::new();
    let mut i: usize = 0;
    while i < ins.len()
        invariant
            i <= ins@.len(),
            ins@ == values::row_inputs(
                d.contents(),
                set.kept(),
                *config,
                *weights,
                witness.contents(),
            ),
            outs@ == values::row_outputs(d.contents(), set.kept()),
            goal == folded_rows(
                alpha,
                d.contents(),
                set.kept(),
                *config,
                *weights,
                witness.contents(),
            ),
            out@ == goal.take(i as int),
        decreases ins.len() - i,
    {
        assert(outs.len() == outs@.len());
        out.push(table::fold_row(alpha, ins[i], outs[i], d.ty));
        assert(goal.take(i + 1) =~= goal.take(i as int).push(goal[i as int]));
        i += 1;
    }
    assert(goal.take(i as int) =~= goal);
    out
}

/// The query.
pub fn build_query(
    set: &CommitSet,
    config: &Config,
    weights: &ModelWeights,
    witness: &Witness,
    descs: &Vec<Descriptor>,
    alpha: EF,
) -> (r: Vec<EF>)
    requires
        segments::query_fits(*config, *weights),
        segments::desc_views(descs@) == segments::all_segments(*config, *weights),
        all_values_ready(
            segments::desc_views(descs@),
            set.kept(),
            *config,
            *weights,
            *witness,
        ),
    ensures
        r@ == query_table(alpha, set.kept(), *config, *weights, witness.contents()),
        r@.len() == pow2(segments::query_bits(*config, *weights)),
{
    let ghost s = segments::desc_views(descs@);
    let ghost polys = set.kept();
    let ghost wit = witness.contents();
    let mut q: Vec<EF> = Vec::new();
    let mut i: usize = 0;
    proof {
        lemma_total(*config, *weights);
        assert(s.len() == descs@.len());
    }
    while i < descs.len()
        invariant
            i <= descs@.len(),
            s == segments::desc_views(descs@),
            polys == set.kept(),
            wit == witness.contents(),
            all_values_ready(s, polys, *config, *weights, *witness),
            q@ == query_rows(alpha, s, polys, *config, *weights, wit, i as nat),
            q@.len() == segments::length_before(s, i as nat),
        decreases descs.len() - i,
    {
        proof {
            assert(s[i as int] == descs@[i as int].contents());
            assert(values::values_ready(s[i as int], polys, *config, *weights, *witness));
        }
        let mut rows = fold_segment(set, config, weights, witness, &descs[i], alpha);
        q.append(&mut rows);
        i += 1;
    }
    let default = table::fold_row(alpha, EF::new_zero(), EF::new_zero(), TYPE_RANGE12);
    assert(q.len() == q@.len());
    let padded: usize = commit::pow_ceil(q.len());
    let ghost rows = q@;
    assert(q@ =~= rows + Seq::new(0, |i: int| default_row(alpha)));
    while q.len() < padded
        invariant
            rows.len() <= q@.len() <= padded,
            default == default_row(alpha),
            q@ == rows + Seq::new(
                (q@.len() - rows.len()) as nat,
                |i: int| default_row(alpha),
            ),
        decreases padded - q@.len(),
    {
        let ghost before = q@;
        q.push(default);
        assert(q@ =~= rows + Seq::new(
            (q@.len() - rows.len()) as nat,
            |i: int| default_row(alpha),
        ));
    }
    q
}

/// Witness, weights and lookup table.
pub open spec fn base_polys(config: Config, w: ModelWeights, wit: WitnessView) -> Map<
    Seq<char>,
    Seq<EF>,
> {
    canonical::online_polys(wit, config).union_prefer_right(
        canonical::offline_polys(w),
    ).insert(TABLE_IN@, table::input_column(config, w)).insert(
        TABLE_OUT@,
        table::output_column(config, w),
    ).insert(TABLE_TYPE@, table::type_column(config, w))
}

/// The same with the limbs of the first `n` checks.
pub open spec fn with_limbs(config: Config, w: ModelWeights, wit: WitnessView, n: nat) -> Map<
    Seq<char>,
    Seq<EF>,
>
    decreases n,
{
    if n == 0 {
        base_polys(config, w, wit)
    } else {
        let before = with_limbs(config, w, wit, (n - 1) as nat);
        before.insert(
            segments::check_at(config, n - 1).limbs,
            limb_table(segments::check_at(config, n - 1), before, config),
        )
    }
}

/// All committed polynomials, by name.
pub open spec fn unified_polys(config: Config, w: ModelWeights, wit: WitnessView) -> Map<
    Seq<char>,
    Seq<EF>,
> {
    let limbs = with_limbs(config, w, wit, CHECKS as nat);
    limbs.insert(E@, multiplicities(limbs, config, w, wit))
}

/// The weight matrices fit when padded.
pub proof fn lemma_weights_fit(config: Config, w: ModelWeights)
    requires
        segments::segments_fit(config, w),
    ensures
        canonical::weights_fit(w) <== (forall|k: WeightKind|
            pow2(#[trigger] shapes::weight_bits(config, k)) <= usize::MAX) && pow2(
            commit::ceil_log(config.vocab as int) + commit::ceil_log(config.d_model as int),
        ) <= usize::MAX,
{
    if (forall|k: WeightKind| pow2(#[trigger] shapes::weight_bits(config, k)) <= usize::MAX)
        && pow2(
        commit::ceil_log(config.vocab as int) + commit::ceil_log(config.d_model as int),
    ) <= usize::MAX {
        let (d, h, v) = (
            commit::ceil_log(config.d_model as int),
            commit::ceil_log(config.mlp_hidden as int),
            commit::ceil_log(config.vocab as int),
        );
        let t = commit::ceil_log(3 * config.d_model);
        vstd::arithmetic::power2::lemma_pow2_adds(d, t);
        vstd::arithmetic::power2::lemma_pow2_adds(d, d);
        vstd::arithmetic::power2::lemma_pow2_adds(d, h);
        vstd::arithmetic::power2::lemma_pow2_adds(h, d);
        vstd::arithmetic::power2::lemma_pow2_adds(v, d);
        assert(pow2(shapes::weight_bits(config, WeightKind::AttnW)) <= usize::MAX);
        assert(pow2(shapes::weight_bits(config, WeightKind::AttnProjW)) <= usize::MAX);
        assert(pow2(shapes::weight_bits(config, WeightKind::FcW)) <= usize::MAX);
        assert(pow2(shapes::weight_bits(config, WeightKind::FprojW)) <= usize::MAX);
        assert forall|l: int| 0 <= l < w.blocks@.len() implies
            #[trigger] canonical::layer_weights_fit(w, l) by {
            assert(w.blocks@[l].wf(config));
        }
    }
}

/// The products of all segments fit machine integers.
pub open spec fn all_products_fit(config: Config, w: ModelWeights, wit: WitnessView) -> bool {
    forall|i: int|
        0 <= i < segments::all_segments(config, w).len() ==> values::segment_fits(
            #[trigger] segments::all_segments(config, w)[i],
            config,
            w,
            wit,
        )
}

/// What committing asks for: the sizes fit, every check's value has two limbs, and
/// every segment row is a table row.
pub open spec fn commit_ready(config: Config, w: ModelWeights, witness: Witness) -> bool {
    let wit = witness.contents();
    &&& sizes_ready(config, w)
    &&& witness.wf()
    &&& canonical::witness_shaped(wit, config)
    &&& forall|i: int|
        0 <= i < CHECKS ==> targets_fit(
            #[trigger] segments::check_at(config, i),
            with_limbs(config, w, wit, i as nat),
            config,
        )
    &&& all_products_fit(config, w, wit)
    &&& all_rows_fit(
        segments::all_segments(config, w),
        with_limbs(config, w, wit, CHECKS as nat),
        config,
        w,
        wit,
    )
}

/// All lengths fit a machine word.
pub open spec fn sizes_ready(config: Config, w: ModelWeights) -> bool {
    &&& segments::query_fits(config, w)
    &&& shapes::limbs_fit(config)
    &&& forall|k: WeightKind| pow2(#[trigger] shapes::weight_bits(config, k)) <= usize::MAX
    &&& pow2(
        commit::ceil_log(config.vocab as int) + commit::ceil_log(config.d_model as int),
    ) <= usize::MAX
}

/// The lengths and first characters of the names of limb polynomials.
proof fn lemma_limb_text(config: Config, i: int)
    requires
        0 <= i < CHECKS,
    ensures
        segments::check_at(config, i).limbs.len() >= 11,
        i == 0 ==> segments::check_at(config, i).limbs.len() == 11,
        i == 1 ==> segments::check_at(config, i).limbs.len() == 14,
        i == 2 || i == 3 ==> segments::check_at(config, i).limbs.len() == 12,
        i == 2 ==> segments::check_at(config, i).limbs[5] == 'l',
        i == 3 ==> segments::check_at(config, i).limbs[5] == 'h',
        i >= 4 ==> segments::check_at(config, i).limbs.len() == segments::bounded_kind(
            i - 4,
        ).text().len() + 11,
        i >= 4 ==> segments::bounded_kind(i - 4).text().len() >= 4,
        segments::check_at(config, i).limbs[0] == 'l' || segments::check_at(config, i).limbs[0]
            == 's' || segments::check_at(config, i).limbs[0] == 'q',
{
    reveal_strlit("ln_rem_limb");
    reveal_strlit("ln_rem_hi_limb");
    reveal_strlit("sqrt_lo_limb");
    reveal_strlit("sqrt_hi_limb");
    reveal_strlit("_bound_limb");
    reveal_strlit("q_ln");
    reveal_strlit("q_qkv");
    reveal_strlit("q_sc");
    reveal_strlit("q_ao");
    reveal_strlit("q_apr");
    reveal_strlit("q_fc");
    reveal_strlit("q_fpr");
    reveal_strlit("q_log");
    if i >= 4 {
        let k = segments::bounded_kind(i - 4);
        assert(k.text()[0] == 'q');
        assert(segments::bound_text(k)[0] == k.text()[0]);
    }
}

/// Different checks have different limb names.
proof fn lemma_limb_names(config: Config, i: int, j: int)
    requires
        0 <= i < CHECKS,
        0 <= j < CHECKS,
        segments::check_at(config, i).limbs == segments::check_at(config, j).limbs,
    ensures
        i == j,
{
    lemma_limb_text(config, i);
    lemma_limb_text(config, j);
    if i >= 4 && j >= 4 {
        let (a, b) = (segments::bounded_kind(i - 4), segments::bounded_kind(j - 4));
        let (x, y) = (segments::bound_text(a), segments::bound_text(b));
        assert(x.take(a.text().len() as int) =~= a.text());
        assert(y.take(b.text().len() as int) =~= b.text());
        canonical::lemma_kind_names(a, b);
    }
}

/// The lengths and first characters of the remaining names.
proof fn lemma_table_text()
    ensures
        E@.len() == 1,
        TABLE_IN@.len() == 8,
        TABLE_OUT@.len() == 9,
        TABLE_TYPE@.len() == 10,
        TABLE_IN@[0] == 't',
        TABLE_OUT@[0] == 't',
        TABLE_TYPE@[0] == 't',
        WTE@.len() == 3,
        WTE@[0] == 'w',
{
    reveal_strlit("e");
    reveal_strlit("table_in");
    reveal_strlit("table_out");
    reveal_strlit("table_type");
    reveal_strlit("wte");
}

/// The name is that of a limb polynomial.
spec fn is_limb_name(config: Config, name: Seq<char>) -> bool {
    exists|i: int| 0 <= i < CHECKS && #[trigger] segments::check_at(config, i).limbs == name
}

/// Limbs leave the other polynomials alone.
proof fn lemma_limbs_keep(
    config: Config,
    w: ModelWeights,
    wit: WitnessView,
    name: Seq<char>,
    n: nat,
)
    requires
        n <= CHECKS,
        !is_limb_name(config, name),
    ensures
        with_limbs(config, w, wit, n).contains_key(name) == base_polys(
            config,
            w,
            wit,
        ).contains_key(name),
        with_limbs(config, w, wit, n)[name] == base_polys(config, w, wit)[name],
    decreases n,
{
    if n > 0 {
        lemma_limbs_keep(config, w, wit, name, (n - 1) as nat);
        assert(segments::check_at(config, n - 1).limbs != name);
    }
}

/// The limbs of a check stay in place.
proof fn lemma_limbs_at(config: Config, w: ModelWeights, wit: WitnessView, i: int, n: nat)
    requires
        0 <= i < n <= CHECKS,
    ensures
        with_limbs(config, w, wit, n).contains_key(segments::check_at(config, i).limbs),
        with_limbs(config, w, wit, n)[segments::check_at(config, i).limbs] == limb_table(
            segments::check_at(config, i),
            with_limbs(config, w, wit, i as nat),
            config,
        ),
    decreases n,
{
    if i < n - 1 {
        lemma_limbs_at(config, w, wit, i, (n - 1) as nat);
        if segments::check_at(config, i).limbs == segments::check_at(config, n - 1).limbs {
            lemma_limb_names(config, i, n - 1);
        }
    }
}

/// The weights of a layer stay in place.
proof fn lemma_layer_polys(w: ModelWeights, k: WeightKind, l: nat, n: nat)
    requires
        l < n,
    ensures
        canonical::layer_polys(w, n).contains_key(k.text(l)),
        canonical::layer_polys(w, n)[k.text(l)] == canonical::weight_table(
            k.matrix(w, l as int),
        ),
    decreases n,
{
    let m = (n - 1) as nat;
    canonical::lemma_weight_names(k, WeightKind::AttnW, l, m);
    canonical::lemma_weight_names(k, WeightKind::AttnProjW, l, m);
    canonical::lemma_weight_names(k, WeightKind::FcW, l, m);
    canonical::lemma_weight_names(k, WeightKind::FprojW, l, m);
    canonical::lemma_weight_names(WeightKind::AttnW, WeightKind::AttnProjW, m, m);
    canonical::lemma_weight_names(WeightKind::AttnW, WeightKind::FcW, m, m);
    canonical::lemma_weight_names(WeightKind::AttnW, WeightKind::FprojW, m, m);
    canonical::lemma_weight_names(WeightKind::AttnProjW, WeightKind::FcW, m, m);
    canonical::lemma_weight_names(WeightKind::AttnProjW, WeightKind::FprojW, m, m);
    canonical::lemma_weight_names(WeightKind::FcW, WeightKind::FprojW, m, m);
    if l < m {
        lemma_layer_polys(w, k, l, m);
    }
}

/// Only weights are among the weights.
proof fn lemma_layer_names(w: ModelWeights, name: Seq<char>, n: nat)
    requires
        forall|k: WeightKind, l: nat| #[trigger] k.text(l) != name,
    ensures
        !canonical::layer_polys(w, n).contains_key(name),
    decreases n,
{
    if n > 0 {
        lemma_layer_names(w, name, (n - 1) as nat);
        let l = (n - 1) as nat;
        assert(WeightKind::AttnW.text(l) != name);
        assert(WeightKind::AttnProjW.text(l) != name);
        assert(WeightKind::FcW.text(l) != name);
        assert(WeightKind::FprojW.text(l) != name);
    }
}

/// A kind's polynomial stays in place.
pub proof fn lemma_kind_kept(config: Config, w: ModelWeights, wit: WitnessView, k: Kind, n: nat)
    requires
        n <= CHECKS,
    ensures
        with_limbs(config, w, wit, n).contains_key(k.text()),
        with_limbs(config, w, wit, n)[k.text()] == canonical::kind_table(wit, config, k),
        unified_polys(config, w, wit)[k.text()] == canonical::kind_table(wit, config, k),
        unified_polys(config, w, wit).contains_key(k.text()),
{
    let name = k.text();
    canonical::lemma_kind_names(k, k);
    canonical::lemma_kind_of(k);
    lemma_table_text();
    assert forall|j: WeightKind, l: nat| #[trigger] j.text(l) != name by {
        canonical::lemma_weight_names(j, j, l, l);
    }
    lemma_layer_names(w, name, w.blocks@.len());
    assert(!canonical::offline_polys(w).contains_key(name));
    assert(!is_limb_name(config, name)) by {
        if is_limb_name(config, name) {
            let i = choose|i: int|
                0 <= i < CHECKS && #[trigger] segments::check_at(config, i).limbs == name;
            lemma_limb_text(config, i);
        }
    }
    lemma_limbs_keep(config, w, wit, name, n);
    lemma_limbs_keep(config, w, wit, name, CHECKS as nat);
}

/// A weight's polynomial stays in place.
pub proof fn lemma_weight_kept(
    config: Config,
    w: ModelWeights,
    wit: WitnessView,
    k: WeightKind,
    l: nat,
    n: nat,
)
    requires
        n <= CHECKS,
        l < w.blocks@.len(),
    ensures
        with_limbs(config, w, wit, n).contains_key(k.text(l)),
        with_limbs(config, w, wit, n)[k.text(l)] == canonical::weight_table(
            k.matrix(w, l as int),
        ),
        unified_polys(config, w, wit)[k.text(l)] == canonical::weight_table(
            k.matrix(w, l as int),
        ),
        unified_polys(config, w, wit).contains_key(k.text(l)),
{
    let name = k.text(l);
    lemma_table_text();
    canonical::lemma_weight_names(k, k, l, l);
    lemma_layer_polys(w, k, l, w.blocks@.len());
    assert(!is_limb_name(config, name)) by {
        if is_limb_name(config, name) {
            let i = choose|i: int|
                0 <= i < CHECKS && #[trigger] segments::check_at(config, i).limbs == name;
            lemma_limb_text(config, i);
        }
    }
    lemma_limbs_keep(config, w, wit, name, n);
    lemma_limbs_keep(config, w, wit, name, CHECKS as nat);
}

/// The embedding's polynomial and the table stay in place.
pub proof fn lemma_table_kept(config: Config, w: ModelWeights, wit: WitnessView, n: nat)
    requires
        n <= CHECKS,
    ensures
        ({
            let m = with_limbs(config, w, wit, n);
            let u = unified_polys(config, w, wit);
            &&& m.contains_key(WTE@) && m[WTE@] == canonical::weight_table(w.wte.grid())
            &&& m.contains_key(TABLE_IN@) && m[TABLE_IN@] == table::input_column(config, w)
            &&& m.contains_key(TABLE_OUT@) && m[TABLE_OUT@] == table::output_column(config, w)
            &&& m.contains_key(TABLE_TYPE@) && m[TABLE_TYPE@] == table::type_column(config, w)
            &&& u.contains_key(WTE@) && u[WTE@] == canonical::weight_table(w.wte.grid())
            &&& u.contains_key(TABLE_IN@) && u[TABLE_IN@] == table::input_column(config, w)
            &&& u.contains_key(TABLE_OUT@) && u[TABLE_OUT@] == table::output_column(config, w)
            &&& u.contains_key(TABLE_TYPE@) && u[TABLE_TYPE@] == table::type_column(config, w)
        }),
{
    lemma_table_text();
    assert forall|name: Seq<char>| is_limb_name(config, name) implies #[trigger] name.len()
        >= 11 by {
        let i = choose|i: int|
            0 <= i < CHECKS && #[trigger] segments::check_at(config, i).limbs == name;
        lemma_limb_text(config, i);
    }
    assert(WTE@.len() == 3 && TABLE_IN@.len() == 8 && TABLE_OUT@.len() == 9
        && TABLE_TYPE@.len() == 10);
    lemma_limbs_keep(config, w, wit, WTE@, n);
    lemma_limbs_keep(config, w, wit, TABLE_IN@, n);
    lemma_limbs_keep(config, w, wit, TABLE_OUT@, n);
    lemma_limbs_keep(config, w, wit, TABLE_TYPE@, n);
    lemma_limbs_keep(config, w, wit, WTE@, CHECKS as nat);
    lemma_limbs_keep(config, w, wit, TABLE_IN@, CHECKS as nat);
    lemma_limbs_keep(config, w, wit, TABLE_OUT@, CHECKS as nat);
    lemma_limbs_keep(config, w, wit, TABLE_TYPE@, CHECKS as nat);
}

/// The limbs of a check stay in place.
pub proof fn lemma_limb_kept(config: Config, w: ModelWeights, wit: WitnessView, i: int)
    requires
        0 <= i < CHECKS,
    ensures
        ({
            let name = segments::check_at(config, i).limbs;
            let t = limb_table(
                segments::check_at(config, i),
                with_limbs(config, w, wit, i as nat),
                config,
            );
            &&& with_limbs(config, w, wit, CHECKS as nat).contains_key(name)
            &&& with_limbs(config, w, wit, CHECKS as nat)[name] == t
            &&& unified_polys(config, w, wit).contains_key(name)
            &&& unified_polys(config, w, wit)[name] == t
        }),
{
    lemma_limbs_at(config, w, wit, i, CHECKS as nat);
    lemma_limb_text(config, i);
    lemma_table_text();
}

/// The length of a weight polynomial.
pub proof fn lemma_weight_len(config: Config, w: ModelWeights, k: WeightKind, l: nat)
    requires
        segments::segments_fit(config, w),
        l < config.n_layer,
    ensures
        canonical::weight_table(k.matrix(w, l as int)).len() == pow2(
            shapes::weight_bits(config, k),
        ),
{
    assert(w.blocks@[l as int].wf(config));
    lemma_table_len(k.matrix(w, l as int));
}

pub proof fn lemma_table_len(g: grid::Grid)
    ensures
        canonical::weight_table(g).len() == pow2(
            commit::ceil_log(g.rows as int) + commit::ceil_log(g.cols as int),
        ),
{
    multilinear::lemma_pow2_zero();
    commit::lemma_ceil_log(1, 0);
    vstd::arithmetic::power2::lemma_pow2_adds(
        commit::ceil_log(g.rows as int),
        commit::ceil_log(g.cols as int),
    );
    let e = commit::ceil_pow(g.rows as int) * commit::ceil_pow(g.cols as int);
    assert(1 * e == e);
}

/// The length of a kind's polynomial.
pub proof fn lemma_kind_len(config: Config, wit: WitnessView, k: Kind)
    requires
        canonical::sizes_fit(config),
    ensures
        canonical::kind_table(wit, config, k).len() == pow2(canonical::all_bits(config, k)),
{
    canonical::lemma_sizes(config, k);
}

/// The checks' operands are ready before their limbs are committed.
proof fn lemma_check_before(config: Config, w: ModelWeights, wit: WitnessView, i: int)
    requires
        segments::segments_fit(config, w),
        shapes::limbs_fit(config),
        0 <= i < CHECKS,
    ensures
        check_ready(
            segments::check_at(config, i),
            with_limbs(config, w, wit, i as nat),
            config,
        ),
{
    let c = segments::check_at(config, i);
    let polys = with_limbs(config, w, wit, i as nat);
    let n = canonical::all_bits(config, c.value);
    shapes::lemma_check_ok(config, w, i);
    assert(pow2((canonical::all_bits(config, segments::check_at(config, i).value) + 1) as nat)
        <= usize::MAX);
    let kinds = seq![Kind::QLn, Kind::ALn, Kind::Std, Kind::Var, c.value];
    assert forall|j: int| 0 <= j < kinds.len() implies polys.contains_key(
        (#[trigger] kinds[j]).text(),
    ) && polys[kinds[j].text()].len() == pow2(canonical::all_bits(config, kinds[j])) by {
        lemma_kind_kept(config, w, wit, kinds[j], i as nat);
        lemma_kind_len(config, wit, kinds[j]);
    }
    assert(kinds[0] == Kind::QLn && kinds[1] == Kind::ALn && kinds[2] == Kind::Std && kinds[3]
        == Kind::Var && kinds[4] == c.value);
    multilinear::lemma_pow2_zero();
    commit::lemma_ceil_log(1, 0);
    assert forall|j: int| 0 <= j < c.linears.len() implies (#[trigger] c.linears[j]).src.fits(n)
        && c.linears[j].src.stored(polys) by {
        assert(shapes::source_ok(config, w, c.linears[j].src, n));
    }
}

/// All polynomials of the protocol are committed with their numbers of variables.
pub proof fn lemma_ready(config: Config, w: ModelWeights, wit: WitnessView)
    requires
        segments::segments_fit(config, w),
    ensures
        shapes::all_ready(unified_polys(config, w, wit), config, w),
        shapes::ready(with_limbs(config, w, wit, CHECKS as nat), config, w),
{
    let u = unified_polys(config, w, wit);
    let n = CHECKS as nat;
    let m = with_limbs(config, w, wit, n);
    assert forall|name: Seq<char>, bits: nat| #[trigger]
        shapes::named_bits(config, w, name, bits) implies u.contains_key(name) && u[name].len()
        == pow2(bits) && m.contains_key(name) && m[name].len() == pow2(bits) by {
        if exists|k: Kind| #[trigger] shapes::is_kind_poly(config, k, name, bits) {
            let k = choose|k: Kind| #[trigger] shapes::is_kind_poly(config, k, name, bits);
            lemma_kind_kept(config, w, wit, k, n);
            lemma_kind_len(config, wit, k);
        } else if exists|k: WeightKind, l: nat| #[trigger]
            shapes::is_weight_poly(config, k, l, name, bits) {
            let (k, l) = choose|k: WeightKind, l: nat| #[trigger]
                shapes::is_weight_poly(config, k, l, name, bits);
            lemma_weight_kept(config, w, wit, k, l, n);
            lemma_weight_len(config, w, k, l);
        } else if exists|i: int| #[trigger] shapes::is_limb_poly(config, i, name, bits) {
            let i = choose|i: int| #[trigger] shapes::is_limb_poly(config, i, name, bits);
            lemma_limb_kept(config, w, wit, i);
        } else {
            lemma_table_kept(config, w, wit, n);
            lemma_table_len(w.wte.grid());
        }
    }
}

/// Every segment's values are ready.
pub proof fn lemma_values_ready(
    config: Config,
    w: ModelWeights,
    witness: Witness,
    polys: Map<Seq<char>, Seq<EF>>,
)
    requires
        sizes_ready(config, w),
        shapes::ready(polys, config, w),
        witness.wf(),
        canonical::witness_shaped(witness.contents(), config),
        all_products_fit(config, w, witness.contents()),
    ensures
        all_values_ready(segments::all_segments(config, w), polys, config, w, witness),
{
    let s = segments::all_segments(config, w);
    let t = segments::sorted(segments::listed(config, w));
    shapes::lemma_segments_ok(config, w);
    lemma_total(config, w);
    assert forall|i: int| 0 <= i < s.len() implies #[trigger] values::values_ready(
        s[i],
        polys,
        config,
        w,
        witness,
    ) by {
        assert(shapes::segment_ok(config, w, s[i]));
        segments::lemma_length_mono(s, (i + 1) as nat, s.len());
        assert(values::segment_fits(s[i], config, w, witness.contents()));
    }
}

/// Commits the witness, the weights, the lookup table, the limbs and the
/// multiplicities.
pub fn build_commitments(config: &Config, weights: &ModelWeights, witness: &Witness) -> (r: Canonical)
    requires
        config.n_layer > 0,
        config.n_head > 0,
        commit_ready(*config, *weights, *witness),
    ensures
        r.set.kept() == unified_polys(*config, *weights, witness.contents()),
        r.set.committed() == unified_polys(*config, *weights, witness.contents()),
        shapes::all_ready(r.set.kept(), *config, *weights),
        forall|k: Kind|
            r.layout_map().contains_key(#[trigger] k.text()) && canonical::is_layout(
                r.layout_map()[k.text()],
                *config,
                k,
            ),
{
    let ghost wit = witness.contents();
    proof {
        lemma_weights_fit(*config, *weights);
        lemma_ready(*config, *weights, wit);
        lemma_values_ready(
            *config,
            *weights,
            *witness,
            with_limbs(*config, *weights, wit, CHECKS as nat),
        );
    }
    let canon = canonical::build_online(config, witness);
    let ghost layouts = canon.layout_map();
    let Canonical { set, layouts: kept_layouts } = canon;
    let mut set = set;
    let offline = canonical::build_offline(config, weights);
    set.extend(offline.set);
    let (tin, tout, tty) = table::table_columns(config, weights);
    set.commit(TABLE_IN, tin);
    set.commit(TABLE_OUT, tout);
    set.commit(TABLE_TYPE, tty);
    let checks = segments::limb_checks(config);
    let mut i: usize = 0;
    while i < CHECKS
        invariant
            i <= CHECKS,
            wit == witness.contents(),
            commit_ready(*config, *weights, *witness),
            checks@.len() == CHECKS,
            segments::check_views(checks@) == segments::all_checks(*config),
            set.kept() == with_limbs(*config, *weights, wit, i as nat),
            set.committed() == with_limbs(*config, *weights, wit, i as nat),
        decreases CHECKS - i,
    {
        proof {
            assert(segments::check_views(checks@)[i as int] == checks@[i as int].contents());
            assert(checks@[i as int].contents() == segments::check_at(*config, i as int));
            lemma_check_before(*config, *weights, wit, i as int);
        }
        let limbs = limb_poly_for(&checks[i], &set, config);
        set.commit(checks[i].limb_oracle.as_str(), limbs);
        i += 1;
    }
    let descs = segments::descriptors(config, weights);
    let e = multiplicity_counts(&set, config, weights, witness, &descs);
    set.commit(E, e);
    let r = Canonical { set, layouts: kept_layouts };
    proof {
        canonical::lemma_same_layouts(canon, r);
    }
    r
}

} // verus!
