//! Where the operands stand in the committed polynomials, and which entries of the
//! witness and of the weights they read there.
use vstd::prelude::*;
use vstd::arithmetic::div_mod;
use vstd::arithmetic::power2;
use vstd::arithmetic::power2::pow2;
use crate::field::Field;
use crate::multilinear;
use crate::proofsys::canonical;
use crate::proofsys::canonical::Kind;
use crate::proofsys::commit;
use crate::proofsys::commit::{BiasView, Coord, SourceView};
use crate::proofsys::faithful::sources;
use crate::proofsys::faithful::values;
use crate::proofsys::grid;
use crate::proofsys::grid::Grid;
use crate::proofsys::protocol::EF;
use crate::proofsys::witness::{Config, WitnessView};

verus! {

/// The vertex of joined bits.
pub proof fn lemma_index_join(a: Seq<bool>, b: Seq<bool>)
    ensures
        multilinear::vertex_index(a + b) == multilinear::vertex_index(a) + pow2(a.len())
            * multilinear::vertex_index(b),
    decreases a.len(),
{
    multilinear::lemma_pow2_zero();
    if a.len() == 0 {
        assert(a + b =~= b);
    } else {
        lemma_index_join(a.drop_first(), b);
        assert((a + b).drop_first() =~= a.drop_first() + b);
        multilinear::lemma_pow2_step(a.len());
        let (x, y) = (
            pow2((a.len() - 1) as nat) as int,
            multilinear::vertex_index(b),
        );
        assert((2 * x) * y == 2 * (x * y)) by (nonlinear_arith);
    }
}

/// The low and the high bits of a number.
pub proof fn lemma_bits_split(i: nat, m: nat, n: nat)
    ensures
        commit::index_bits(i, m + n) == commit::index_bits(i, m) + commit::index_bits(
            i / pow2(m),
            n,
        ),
    decreases m,
{
    multilinear::lemma_pow2_zero();
    if m == 0 {
        assert(i / 1 == i);
        assert(commit::index_bits(i, m + n) =~= commit::index_bits(i, m) + commit::index_bits(
            i / pow2(m),
            n,
        ));
    } else {
        let k = (m - 1) as nat;
        multilinear::lemma_pow2_step(m);
        lemma_bits_split(i / 2, k, n);
        div_mod::lemma_div_denominator(i as int, 2, pow2(k) as int);
        assert(commit::index_bits(i, m + n) =~= seq![i % 2 == 1] + commit::index_bits(
            i / 2,
            k + n,
        ));
        assert(commit::index_bits(i, m + n) =~= commit::index_bits(i, m) + commit::index_bits(
            i / pow2(m),
            n,
        ));
    }
}

proof fn lemma_mapped_join(a: Seq<Coord>, b: Seq<Coord>, bits: Seq<bool>)
    ensures
        values::mapped_bits(a + b, bits) == values::mapped_bits(a, bits) + values::mapped_bits(
            b,
            bits,
        ),
{
    assert(values::mapped_bits(a + b, bits) =~= values::mapped_bits(a, bits)
        + values::mapped_bits(b, bits));
}

proof fn lemma_mapped_variables(from: nat, n: nat, bits: Seq<bool>)
    requires
        from + n <= bits.len(),
        from + n < 1000,
    ensures
        values::mapped_bits(commit::variables(from, n), bits) == bits.subrange(
            from as int,
            (from + n) as int,
        ),
{
    assert(values::mapped_bits(commit::variables(from, n), bits) =~= bits.subrange(
        from as int,
        (from + n) as int,
    ));
}

proof fn lemma_mapped_constants(b: Seq<bool>, bits: Seq<bool>)
    ensures
        values::mapped_bits(commit::constants(b), bits) == b,
{
    assert(values::mapped_bits(commit::constants(b), bits) =~= b);
}

/// The position of one instance's entry.
pub proof fn lemma_slice_position(
    name: Seq<char>,
    bias: Option<BiasView>,
    n: nat,
    inst: nat,
    ib: nat,
    i: int,
)
    requires
        0 <= i < pow2(n),
        inst < pow2(ib),
        n < 64,
    ensures
        values::vertex_position(
            SourceView {
                oracle: name,
                coords: commit::variables(0, n) + commit::constants(
                    commit::index_bits(inst, ib),
                ),
                bias,
            },
            n,
            i,
        ) == inst * pow2(n) + i,
{
    let bits = commit::index_bits(i as nat, n);
    let tail = commit::index_bits(inst, ib);
    commit::lemma_index_bits(i as nat, n);
    commit::lemma_index_bits(inst, ib);
    lemma_mapped_join(commit::variables(0, n), commit::constants(tail), bits);
    lemma_mapped_variables(0, n, bits);
    lemma_mapped_constants(tail, bits);
    assert(bits.subrange(0, n as int) =~= bits);
    lemma_index_join(bits, tail);
    div_mod::lemma_small_mod(i as nat, pow2(n));
    div_mod::lemma_small_mod(inst, pow2(ib));
    let (a, b) = (inst as int, pow2(n) as int);
    assert(a * b == b * a) by (nonlinear_arith);
}

/// The position of an entry that is repeated over the low variables.
pub proof fn lemma_high_position(name: Seq<char>, cb: nat, rb: nat, inst: nat, ib: nat, i: int)
    requires
        0 <= i < pow2(cb + rb),
        inst < pow2(ib),
        cb + rb < 64,
    ensures
        0 <= i / pow2(cb) as int,
        (i / pow2(cb) as int) < pow2(rb),
        values::vertex_position(
            commit::committed_source(
                name,
                commit::variables(cb, rb) + commit::constants(commit::index_bits(inst, ib)),
            ),
            cb + rb,
            i,
        ) == inst * pow2(rb) + i / pow2(cb) as int,
{
    let bits = commit::index_bits(i as nat, cb + rb);
    let tail = commit::index_bits(inst, ib);
    let r = i as nat / pow2(cb);
    lemma_row_bound(cb, rb, i);
    commit::lemma_index_bits(i as nat, cb + rb);
    commit::lemma_index_bits(inst, ib);
    commit::lemma_index_bits(i as nat, cb);
    commit::lemma_index_bits(r, rb);
    lemma_bits_split(i as nat, cb, rb);
    lemma_mapped_join(commit::variables(cb, rb), commit::constants(tail), bits);
    lemma_mapped_variables(cb, rb, bits);
    lemma_mapped_constants(tail, bits);
    let high = commit::index_bits(r, rb);
    assert(bits.subrange(cb as int, (cb + rb) as int) =~= high);
    lemma_index_join(high, tail);
    div_mod::lemma_small_mod(r, pow2(rb));
    div_mod::lemma_small_mod(inst, pow2(ib));
    let (a, b) = (inst as int, pow2(rb) as int);
    assert(a * b == b * a) by (nonlinear_arith);
}

/// Row and column of a vertex.
pub proof fn lemma_row_bound(cb: nat, rb: nat, i: int)
    requires
        0 <= i < pow2(cb + rb),
    ensures
        0 <= i / pow2(cb) as int,
        (i / pow2(cb) as int) < pow2(rb),
        0 <= i % pow2(cb) as int,
        (i % pow2(cb) as int) < pow2(cb),
        i == (i / pow2(cb) as int) * pow2(cb) + i % pow2(cb) as int,
        i as nat / pow2(cb) == i / pow2(cb) as int,
        i as nat % pow2(cb) == i % pow2(cb) as int,
{
    power2::lemma_pow2_adds(rb, cb);
    grid::lemma_position(pow2(rb), pow2(cb), i);
}

/// The position of an entry of a part of the columns.
pub proof fn lemma_part_position(
    name: Seq<char>,
    bias: Option<BiasView>,
    dh: nat,
    mid: nat,
    mb: nat,
    sb: nat,
    layer: nat,
    lb: nat,
    i: int,
)
    requires
        0 <= i < pow2(dh + sb),
        mid < pow2(mb),
        layer < pow2(lb),
        dh + sb < 64,
    ensures
        values::vertex_position(
            SourceView {
                oracle: name,
                coords: commit::variables(0, dh) + commit::constants(
                    commit::index_bits(mid, mb),
                ) + commit::variables(dh, sb) + commit::constants(
                    commit::index_bits(layer, lb),
                ),
                bias,
            },
            dh + sb,
            i,
        ) == layer * pow2(dh + mb + sb) + ((i / pow2(dh) as int) * pow2(dh + mb) + (mid * pow2(dh)
            + i % pow2(dh) as int)),
{
    let bits = commit::index_bits(i as nat, dh + sb);
    let (m, t) = (commit::index_bits(mid, mb), commit::index_bits(layer, lb));
    let (r, c) = (i as nat / pow2(dh), i as nat % pow2(dh));
    lemma_row_bound(dh, sb, i);
    commit::lemma_index_bits(i as nat, dh + sb);
    commit::lemma_index_bits(i as nat, dh);
    commit::lemma_index_bits(r, sb);
    commit::lemma_index_bits(mid, mb);
    commit::lemma_index_bits(layer, lb);
    lemma_bits_split(i as nat, dh, sb);
    let (va, cm, vb, ct) = (
        commit::variables(0, dh),
        commit::constants(m),
        commit::variables(dh, sb),
        commit::constants(t),
    );
    lemma_mapped_join(va, cm, bits);
    lemma_mapped_join(va + cm, vb, bits);
    lemma_mapped_join(va + cm + vb, ct, bits);
    lemma_mapped_variables(0, dh, bits);
    lemma_mapped_variables(dh, sb, bits);
    lemma_mapped_constants(m, bits);
    lemma_mapped_constants(t, bits);
    let (low, high) = (commit::index_bits(i as nat, dh), commit::index_bits(r, sb));
    assert(bits.subrange(0, dh as int) =~= low);
    assert(bits.subrange(dh as int, (dh + sb) as int) =~= high);
    lemma_index_join(low, m);
    lemma_index_join(low + m, high);
    lemma_index_join(low + m + high, t);
    div_mod::lemma_small_mod(r, pow2(sb));
    div_mod::lemma_small_mod(mid, pow2(mb));
    div_mod::lemma_small_mod(layer, pow2(lb));
    let (a, b, x, y) = (
        layer as int,
        pow2(dh + mb + sb) as int,
        r as int,
        pow2(dh + mb) as int,
    );
    let (u, v) = (mid as int, pow2(dh) as int);
    assert(a * b == b * a) by (nonlinear_arith);
    assert(x * y == y * x) by (nonlinear_arith);
    assert(u * v == v * u) by (nonlinear_arith);
}

/// An entry of an instance, or the padding.
pub open spec fn entry(g: Grid, pad: int, r: int, c: int) -> int {
    if r < g.rows && c < g.cols {
        g.at(r, c)
    } else {
        pad
    }
}

/// The entry of a kind's polynomial for row `r` and column `c` of an instance.
pub proof fn lemma_kind_entry(
    wit: WitnessView,
    config: Config,
    kind: Kind,
    inst: int,
    r: int,
    c: int,
)
    requires
        canonical::sizes_fit(config),
        0 <= inst < pow2(canonical::inst_bits(config, kind)),
        0 <= r < pow2(canonical::row_bits(config, kind)),
        0 <= c < pow2(canonical::col_bits(config, kind)),
    ensures
        ({
            let k = inst * pow2(canonical::elem_bits(config, kind)) + (r * pow2(
                canonical::col_bits(config, kind),
            ) + c);
            &&& 0 <= k < canonical::kind_table(wit, config, kind).len()
            &&& canonical::kind_table(wit, config, kind)[k] == EF::embed(
                if inst < canonical::dims(config, kind).0 {
                    entry(
                        canonical::instance_of(wit, config, kind, inst),
                        kind.padding(),
                        r,
                        c,
                    )
                } else {
                    kind.padding()
                },
            )
        }),
{
    canonical::lemma_sizes(config, kind);
    let (rp, cp) = (
        pow2(canonical::row_bits(config, kind)),
        pow2(canonical::col_bits(config, kind)),
    );
    let gs = canonical::instances_of(wit, config, kind);
    canonical::lemma_stacked_cell(gs, rp, cp, kind.padding(), inst, r, c);
    let (n, e) = (pow2(canonical::inst_bits(config, kind)) as int, (rp * cp) as int);
    assert((inst + 1) * e <= n * e) by (nonlinear_arith)
        requires
            inst + 1 <= n,
            0 <= e,
    ;
}

/// A feature bias at a vertex: the entry of the vertex's column.
pub proof fn lemma_feature_bias(b: Seq<int>, k: nat, n: nat, i: int)
    requires
        b.len() <= commit::ceil_pow(k as int),
        commit::ceil_log(k as int) <= n,
        0 <= i < pow2(n),
    ensures
        ({
            let c = i % pow2(commit::ceil_log(k as int)) as int;
            sources::feature_bias_view(b, k).at(commit::corner(i as nat, n)) == EF::embed(
                if c < b.len() {
                    b[c]
                } else {
                    0
                },
            )
        }),
{
    let view = sources::feature_bias_view(b, k);
    let m = commit::ceil_log(k as int);
    let bits = commit::index_bits(i as nat, m);
    commit::lemma_index_bits(i as nat, n);
    commit::lemma_index_bits(i as nat, m);
    lemma_bits_split(i as nat, m, (n - m) as nat);
    let x = view.chosen(commit::corner(i as nat, n));
    assert(x =~= multilinear::vertex::<EF>(bits)) by {
        assert forall|j: int| 0 <= j < m implies #[trigger] x[j] == multilinear::vertex::<EF>(
            bits,
        )[j] by {
            assert(commit::index_bits(i as nat, n)[j] == bits[j]);
        }
    }
    EF::law_embed(0, 0);
    EF::law_valid(EF::zero(), EF::zero());
    assert forall|j: int| 0 <= j < view.values.len() implies (
    #[trigger] view.values[j]).valid() by {
        EF::law_embed(b[j], 0);
    }
    multilinear::lemma_pow2_mono(0, m);
    let c = i as nat % pow2(m);
    multilinear::lemma_mle_vertex(view.values, bits, c as int);
}

} // verus!
