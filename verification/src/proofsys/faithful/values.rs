//! The values of operands and rows on the hypercube: what the prover commits and
//! looks up.
use vstd::prelude::*;
use vstd::arithmetic::power2::pow2;
use crate::field::{Field, Goldilocks};
use crate::multilinear;
use crate::prime;
use crate::proofsys::canonical;
use crate::proofsys::commit;
use crate::proofsys::commit::{CommitSet, Coord, OracleSource, SourceView};
use crate::proofsys::faithful::segments;
use crate::proofsys::faithful::segments::{
    DescView, Descriptor, Linear, LinearView, Mm, SegKind, SegView, TypeAOp,
};
use crate::proofsys::faithful::shapes;
use crate::proofsys::faithful::sources;
use crate::proofsys::grid;
use crate::proofsys::grid::Grid;
use crate::proofsys::model;
use crate::proofsys::model::ModelWeights;
use crate::proofsys::protocol::EF;
use crate::proofsys::reduce::MatmulKind;
use crate::proofsys::tensor::Matrix;
use crate::proofsys::witness::{Config, Witness, WitnessView};
use crate::utils::poly;

verus! {

/// The canonical integer of a base field element.
pub open spec fn residue(x: EF) -> int {
    x.re()@
}

/// The element lies in the base field.
pub open spec fn is_base(x: EF) -> bool {
    x.im() == Goldilocks::zero()
}

/// The canonical integer of a base field element.
pub fn ef_to_u64(x: EF) -> (r: u64)
    requires
        is_base(x),
    ensures
        r as int == residue(x),
        r < prime::p(),
{
    x.coefficient0().as_canonical_u64()
}

/// The bit of a coordinate at a vertex.
pub open spec fn coord_bit(c: Coord, bits: Seq<bool>) -> bool {
    match c {
        Coord::Const(b) => b,
        Coord::Var(i) => bits[i as int],
    }
}

/// The canonical vertex of an operand vertex.
pub open spec fn mapped_bits(coords: Seq<Coord>, bits: Seq<bool>) -> Seq<bool> {
    Seq::new(coords.len(), |i: int| coord_bit(coords[i], bits))
}

/// The position in the committed polynomial of operand vertex `i` of `n` variables.
pub open spec fn vertex_position(src: SourceView, n: nat, i: int) -> int {
    multilinear::vertex_index(mapped_bits(src.coords, commit::index_bits(i as nat, n)))
}

/// The operand at vertex `i` of `n` variables.
pub open spec fn vertex_value(
    src: SourceView,
    polys: Map<Seq<char>, Seq<EF>>,
    n: nat,
    i: int,
) -> EF {
    polys[src.oracle][vertex_position(src, n, i)] + src.bias_at(commit::corner(i as nat, n))
}

/// The operand at all vertices.
pub open spec fn vertex_table(src: SourceView, polys: Map<Seq<char>, Seq<EF>>, n: nat) -> Seq<EF> {
    Seq::new(pow2(n), |i: int| vertex_value(src, polys, n, i))
}

pub proof fn lemma_vertex_bound(bits: Seq<bool>)
    ensures
        0 <= multilinear::vertex_index(bits) < pow2(bits.len()),
    decreases bits.len(),
{
    multilinear::lemma_pow2_zero();
    if bits.len() > 0 {
        lemma_vertex_bound(bits.drop_first());
        multilinear::lemma_pow2_step(bits.len());
    }
}

/// The lowest `n` bits of `i`.
fn bits_of(i: usize, n: usize) -> (r: Vec<bool>)
    ensures
        r@ == commit::index_bits(i as nat, n as nat),
{
    let mut out: Vec<bool> = Vec::new();
    let ghost goal = commit::index_bits(i as nat, n as nat);
    let mut rest: usize = i;
    let mut k: usize = 0;
    assert(out@ + commit::index_bits(rest as nat, n as nat) =~= goal);
    while k < n
        invariant
            k <= n,
            out@ + commit::index_bits(rest as nat, (n - k) as nat) == goal,
        decreases n - k,
    {
        let ghost seen = out@;
        out.push(rest % 2 == 1);
        assert(out@ + commit::index_bits(rest as nat / 2, (n - k - 1) as nat) =~= seen
            + commit::index_bits(rest as nat, (n - k) as nat));
        rest = rest / 2;
        k += 1;
    }
    assert(out@ + commit::index_bits(rest as nat, 0) =~= out@);
    out
}

/// The operand at vertex `i` of `vars` variables.
pub fn source_at_index(src: &OracleSource, set: &CommitSet, i: usize, vars: usize) -> (r: EF)
    requires
        src.contents().fits(vars as nat),
        src.contents().stored(set.kept()),
    ensures
        r == vertex_value(src.contents(), set.kept(), vars as nat, i as int),
{
    let ghost view = src.contents();
    let bits = bits_of(i, vars);
    let data = &set.prover_data(src.oracle.as_str()).unwrap().0;
    let ghost mb = mapped_bits(view.coords, bits@);
    let mut idx: usize = 0;
    let mut j: usize = src.map.0.len();
    proof {
        commit::lemma_index_bits(i as nat, vars as nat);
        assert(mb.skip(j as int) =~= Seq::<bool>::empty());
        assert(data.len() == data@.len());
    }
    while j > 0
        invariant
            j <= src.map.0@.len(),
            view == src.contents(),
            view.fits(vars as nat),
            bits@.len() == vars,
            mb == mapped_bits(view.coords, bits@),
            idx == multilinear::vertex_index(mb.skip(j as int)),
            pow2(mb.len()) <= usize::MAX,
        decreases j,
    {
        j -= 1;
        assert(commit::coord_within(view.coords[j as int], vars as nat));
        let b: bool = match src.map.0[j] {
            Coord::Const(b) => b,
            Coord::Var(v) => bits[v],
        };
        proof {
            let s = mb.skip(j as int);
            assert(s.drop_first() =~= mb.skip(j + 1));
            assert(s[0] == b);
            lemma_vertex_bound(s);
            multilinear::lemma_pow2_mono(s.len(), mb.len());
        }
        idx = 2 * idx + (if b {
            1
        } else {
            0
        });
    }
    proof {
        assert(mb.skip(0) =~= mb);
        lemma_vertex_bound(mb);
    }
    let at = commit::instance_slice_point(&[], i, vars);
    assert(at@ =~= commit::corner(i as nat, vars as nat));
    data[idx].add(src.bias_at(at.as_slice()))
}

/// The operand at all vertices.
pub fn source_table(src: &OracleSource, set: &CommitSet, vars: usize) -> (r: Vec<EF>)
    requires
        src.contents().fits(vars as nat),
        src.contents().stored(set.kept()),
        pow2(vars as nat) <= usize::MAX,
    ensures
        r@ == vertex_table(src.contents(), set.kept(), vars as nat),
{
    let n: usize = commit::two_to(vars);
    let mut out: Vec<EF> = Vec::new();
    let mut i: usize = 0;
    while i < n
        invariant
            i <= n,
            src.contents().fits(vars as nat),
            src.contents().stored(set.kept()),
            out@.len() == i,
            forall|j: int|
                0 <= j < i ==> #[trigger] out@[j] == vertex_value(
                    src.contents(),
                    set.kept(),
                    vars as nat,
                    j,
                ),
        decreases n - i,
    {
        out.push(source_at_index(src, set, i, vars));
        i += 1;
    }
    assert(out@ =~= vertex_table(src.contents(), set.kept(), vars as nat));
    out
}

/// `start` plus the first `n` linear terms.
pub open spec fn affine(start: EF, linears: Seq<LinearView>, vals: Seq<EF>, n: nat) -> EF
    decreases n,
{
    if n == 0 {
        start
    } else {
        affine(start, linears, vals, (n - 1) as nat) + linears[n - 1].coeff * vals[n - 1]
    }
}

/// The linear operands at a vertex.
pub open spec fn vertex_terms(
    linears: Seq<LinearView>,
    polys: Map<Seq<char>, Seq<EF>>,
    n: nat,
    i: int,
) -> Seq<EF> {
    Seq::new(linears.len(), |j: int| vertex_value(linears[j].src, polys, n, i))
}

/// All linear operands are determined by points of length `n` and stored.
pub open spec fn linears_ready(
    linears: Seq<LinearView>,
    polys: Map<Seq<char>, Seq<EF>>,
    n: nat,
) -> bool {
    forall|j: int|
        0 <= j < linears.len() ==> (#[trigger] linears[j]).src.fits(n) && linears[j].src.stored(
            polys,
        )
}

/// `start` plus all linear terms at a vertex.
pub open spec fn vertex_affine(
    start: EF,
    linears: Seq<LinearView>,
    polys: Map<Seq<char>, Seq<EF>>,
    n: nat,
    i: int,
) -> EF {
    affine(start, linears, vertex_terms(linears, polys, n, i), linears.len())
}

pub fn affine_at_index(
    start: EF,
    linears: &Vec<Linear>,
    set: &CommitSet,
    i: usize,
    vars: usize,
) -> (r: EF)
    requires
        linears_ready(segments::linear_views(linears@), set.kept(), vars as nat),
    ensures
        r == vertex_affine(
            start,
            segments::linear_views(linears@),
            set.kept(),
            vars as nat,
            i as int,
        ),
{
    let ghost views = segments::linear_views(linears@);
    let ghost terms = vertex_terms(views, set.kept(), vars as nat, i as int);
    let mut acc: EF = start;
    let mut j: usize = 0;
    while j < linears.len()
        invariant
            j <= linears@.len(),
            views == segments::linear_views(linears@),
            terms == vertex_terms(views, set.kept(), vars as nat, i as int),
            linears_ready(views, set.kept(), vars as nat),
            acc == affine(start, views, terms, j as nat),
        decreases linears.len() - j,
    {
        assert(views[j as int] == linears@[j as int].contents());
        assert(views[j as int].src.fits(vars as nat));
        let v = source_at_index(&linears[j].src, set, i, vars);
        acc = acc.add(linears[j].coeff.mul(v));
        j += 1;
    }
    acc
}

/// The queries, keys or values of one head.
pub open spec fn head_grid(qkv: Grid, config: Config, part: int, head: int) -> Grid {
    model::head_grid(qkv, config, part * config.d_model, head)
}

/// The left factor of a matrix product.
pub open spec fn left_grid(config: Config, w: ModelWeights, wit: WitnessView, op: TypeAOp) -> Grid {
    let b = wit.blocks[op.layer as int];
    match op.mm {
        Mm::Qkv => b.ln1.output,
        Mm::Fc => b.ln2.output,
        Mm::Fpr => b.mlp.act,
        Mm::Apr => b.attention.q_ao,
        Mm::Log => wit.lnf.output,
        Mm::Sc => head_grid(b.attention.qkv, config, 0, op.head as int),
        Mm::Ao => canonical::face(b.attention.q_prob[op.head as int]),
    }
}

/// The right factor of a matrix product.
pub open spec fn right_grid(config: Config, w: ModelWeights, wit: WitnessView, op: TypeAOp) -> Grid {
    let b = wit.blocks[op.layer as int];
    let bw = w.blocks@[op.layer as int];
    match op.mm {
        Mm::Qkv => bw.attn_w.grid(),
        Mm::Fc => bw.fc_w.grid(),
        Mm::Fpr => bw.fproj_w.grid(),
        Mm::Apr => bw.attn_proj_w.grid(),
        Mm::Log => w.wte.grid(),
        Mm::Sc => head_grid(b.attention.qkv, config, 1, op.head as int),
        Mm::Ao => head_grid(b.attention.qkv, config, 2, op.head as int),
    }
}

/// The quotient of a matrix product.
pub open spec fn quotient_grid(wit: WitnessView, op: TypeAOp) -> Grid {
    let b = wit.blocks[op.layer as int];
    match op.mm {
        Mm::Qkv => b.attention.q_qkv,
        Mm::Fc => b.mlp.q_fc,
        Mm::Fpr => b.mlp.q_fpr,
        Mm::Apr => b.attention.q_apr,
        Mm::Log => wit.q_log,
        Mm::Sc => canonical::face(b.attention.scores[op.head as int]),
        Mm::Ao => canonical::face(b.attention.q_ao_heads[op.head as int]),
    }
}

/// The matrix product.
pub open spec fn product_grid(mk: MatmulKind, a: Grid, b: Grid) -> Grid {
    match mk {
        MatmulKind::Regular => grid::product(a, b),
        MatmulKind::Transposed => grid::product_transposed(a, b),
    }
}

/// The matrix product of an operation.
pub open spec fn op_product(config: Config, w: ModelWeights, wit: WitnessView, op: TypeAOp) -> Grid {
    product_grid(
        segments::kind_of_mm(op.mm),
        left_grid(config, w, wit, op),
        right_grid(config, w, wit, op),
    )
}

/// No sum of a product leaves the machine integers.
pub open spec fn product_grid_fits(mk: MatmulKind, a: Grid, b: Grid) -> bool {
    match mk {
        MatmulKind::Regular => grid::product_fits(a, b),
        MatmulKind::Transposed => grid::product_transposed_fits(a, b),
    }
}

/// The product, the scaled quotient and the remainder fit machine integers.
pub open spec fn op_fits(config: Config, w: ModelWeights, wit: WitnessView, op: TypeAOp) -> bool {
    &&& product_grid_fits(
        segments::kind_of_mm(op.mm),
        left_grid(config, w, wit, op),
        right_grid(config, w, wit, op),
    )
    &&& forall|r: int, c: int|
        0 <= r < quotient_grid(wit, op).rows && 0 <= c < quotient_grid(wit, op).cols
            ==> #[trigger] entry_fits(
            segments::divisor_of(config, op.mm),
            op_product(config, w, wit, op),
            quotient_grid(wit, op),
            r,
            c,
        )
}

proof fn lemma_entry_fits(
    config: Config,
    w: ModelWeights,
    wit: WitnessView,
    op: TypeAOp,
    r: int,
    c: int,
)
    requires
        op_fits(config, w, wit, op),
        0 <= r < quotient_grid(wit, op).rows,
        0 <= c < quotient_grid(wit, op).cols,
    ensures
        entry_fits(
            segments::divisor_of(config, op.mm),
            op_product(config, w, wit, op),
            quotient_grid(wit, op),
            r,
            c,
        ),
{
}

/// The scaled quotient and the remainder of one entry fit machine integers.
pub open spec fn entry_fits(d: int, p: Grid, q: Grid, r: int, c: int) -> bool {
    &&& grid::in_i64(d * q.at(r, c))
    &&& grid::in_i64(p.at(r, c) - d * q.at(r, c))
}

/// The remainder of a rescaled matrix product at position `i`.
pub open spec fn remainder_at(
    config: Config,
    w: ModelWeights,
    wit: WitnessView,
    op: TypeAOp,
    i: int,
) -> EF {
    let cp = pow2(segments::mm_col_bits(config, op.mm)) as int;
    let (r, c) = (i / cp, i % cp);
    let p = op_product(config, w, wit, op);
    if r < segments::mm_shape(config, op.mm).1 && c < segments::mm_shape(config, op.mm).2 {
        EF::embed(p.at(r, c) - segments::divisor_of(config, op.mm) * quotient_grid(wit, op).at(r, c))
    } else {
        EF::zero()
    }
}

/// The queries, keys or values of one head.
fn head_mat(qkv: &Matrix, config: &Config, part: usize, head: usize) -> (r: Matrix)
    requires
        canonical::sizes_fit(*config),
        model::config_fits(*config),
        model::has_shape(*qkv, config.n_seq as nat, (3 * config.d_model) as nat),
        part < 3,
        head < config.n_head,
    ensures
        r.wf(),
        r.grid() == head_grid(qkv.grid(), *config, part as int, head as int),
{
    proof {
        crate::proofsys::faithful::sources::lemma_head_range(*config, part as int, head as int);
    }
    let base: usize = part * config.d_model + head * config.d_head;
    let total: usize = config.n_seq * config.d_head;
    let (n, dh): (usize, usize) = (config.n_seq, config.d_head);
    let mut data: Vec<i64> = Vec::new();
    let mut k: usize = 0;
    while k < total
        invariant
            k <= total,
            total == n * dh,
            n == config.n_seq,
            dh == config.d_head,
            base == part * config.d_model + head * config.d_head,
            base + dh <= 3 * config.d_model,
            model::has_shape(*qkv, config.n_seq as nat, (3 * config.d_model) as nat),
            data@.len() == k,
            forall|j: int|
                0 <= j < k ==> #[trigger] data@[j] as int == qkv.grid().at(
                    j / dh as int,
                    base + j % dh as int,
                ),
        decreases total - k,
    {
        proof {
            grid::lemma_position(n as nat, dh as nat, k as int);
        }
        data.push(qkv.get(k / dh, base + k % dh));
        k += 1;
    }
    let m = Matrix::new(n, dh, data);
    proof {
        let goal = head_grid(qkv.grid(), *config, part as int, head as int);
        assert forall|j: int| 0 <= j < total implies #[trigger] m.grid().data[j]
            == goal.data[j] by {
            assert(data@[j] as int == qkv.grid().at(j / dh as int, base + j % dh as int));
        }
        assert(m.grid().data =~= goal.data);
    }
    m
}

/// The factors and the quotient of a matrix product have its shape.
pub proof fn lemma_op_shapes(config: Config, w: ModelWeights, wit: WitnessView, op: TypeAOp)
    requires
        segments::segments_fit(config, w),
        canonical::witness_shaped(wit, config),
        segments::op_within(config, op),
    ensures
        ({
            let (k, row, col) = segments::mm_shape(config, op.mm);
            let (a, b, q) = (
                left_grid(config, w, wit, op),
                right_grid(config, w, wit, op),
                quotient_grid(wit, op),
            );
            &&& canonical::grid_is(a, row, k)
            &&& segments::kind_of_mm(op.mm) == MatmulKind::Regular ==> canonical::grid_is(
                b,
                k,
                col,
            )
            &&& segments::kind_of_mm(op.mm) == MatmulKind::Transposed ==> canonical::grid_is(
                b,
                col,
                k,
            )
            &&& canonical::grid_is(q, row, col)
            &&& row * col <= usize::MAX
        }),
{
    let l = op.layer as int;
    assert(canonical::block_shaped(wit.blocks[l], config));
    assert(w.blocks@[l].wf(config));
    assert(canonical::head_shaped(wit.blocks[l].attention, config, op.head as int));
}

/// The factors and the quotient of a matrix product.
pub fn typea_inputs(op: TypeAOp, config: &Config, weights: &ModelWeights, witness: &Witness) -> (r:
    (Matrix, Matrix, Matrix))
    requires
        sources::sources_fit(*config, *weights),
        witness.wf(),
        canonical::witness_shaped(witness.contents(), *config),
        segments::op_within(*config, op),
    ensures
        r.0.wf(),
        r.1.wf(),
        r.2.wf(),
        r.0.grid() == left_grid(*config, *weights, witness.contents(), op),
        r.1.grid() == right_grid(*config, *weights, witness.contents(), op),
        r.2.grid() == quotient_grid(witness.contents(), op),
{
    let ghost wit = witness.contents();
    let l: usize = op.layer;
    let h: usize = op.head;
    proof {
        assert(wit.blocks.len() == witness.blocks@.len());
        assert(canonical::block_shaped(wit.blocks[l as int], *config));
        assert(wit.blocks[l as int] == witness.blocks@[l as int].contents());
        assert(witness.blocks@[l as int].wf());
        assert(weights.blocks@[l as int].wf(*config));
        assert(canonical::head_shaped(wit.blocks[l as int].attention, *config, h as int));
    }
    let blk = &witness.blocks[l];
    let bw = &weights.blocks[l];
    match op.mm {
        Mm::Qkv => (blk.ln1.output.copy(), bw.attn_w.copy(), blk.attention.q_qkv.copy()),
        Mm::Fc => (blk.ln2.output.copy(), bw.fc_w.copy(), blk.mlp.q_fc.copy()),
        Mm::Fpr => (blk.mlp.act.copy(), bw.fproj_w.copy(), blk.mlp.q_fpr.copy()),
        Mm::Apr => (
            blk.attention.q_ao.copy(),
            bw.attn_proj_w.copy(),
            blk.attention.q_apr.copy(),
        ),
        Mm::Log => (witness.lnf.output.copy(), weights.wte.copy(), witness.q_log.copy()),
        Mm::Sc => (
            head_mat(&blk.attention.qkv, config, 0, h),
            head_mat(&blk.attention.qkv, config, 1, h),
            canonical::face_matrix(&blk.attention.scores[h]),
        ),
        Mm::Ao => (
            canonical::face_matrix(&blk.attention.q_prob[h]),
            head_mat(&blk.attention.qkv, config, 2, h),
            canonical::face_matrix(&blk.attention.q_ao_heads[h]),
        ),
    }
}

/// The remainders of a rescaled matrix product.
fn remainders(op: TypeAOp, config: &Config, weights: &ModelWeights, witness: &Witness, n: usize) -> (r:
    Vec<EF>)
    requires
        segments::segments_fit(*config, *weights),
        witness.wf(),
        canonical::witness_shaped(witness.contents(), *config),
        segments::op_within(*config, op),
        op_fits(*config, *weights, witness.contents(), op),
        pow2(segments::mm_col_bits(*config, op.mm)) <= usize::MAX,
    ensures
        r@ == Seq::new(
            n as nat,
            |i: int| remainder_at(*config, *weights, witness.contents(), op, i),
        ),
{
    let ghost wit = witness.contents();
    let (a, b, q) = typea_inputs(op, config, weights, witness);
    let dims = segments::mm_dims(config, op.mm);
    proof {
        lemma_op_shapes(*config, *weights, wit, op);
    }
    let c = match segments::mm_kind(op.mm) {
        MatmulKind::Regular => a.matmul(&b),
        MatmulKind::Transposed => a.matmul_transposed_rhs(&b),
    };
    let ghost p = op_product(*config, *weights, wit, op);
    let divisor: i64 = segments::mm_divisor(config, op.mm) as i64;
    let cp: usize = commit::pow_ceil(dims.col);
    let mut out: Vec<EF> = Vec::new();
    let mut i: usize = 0;
    while i < n
        invariant
            i <= n,
            cp > 0,
            cp == pow2(segments::mm_col_bits(*config, op.mm)),
            dims.row == segments::mm_shape(*config, op.mm).1,
            dims.col == segments::mm_shape(*config, op.mm).2,
            c.wf(),
            q.wf(),
            c.grid() == p,
            q.grid() == quotient_grid(wit, op),
            canonical::grid_is(q.grid(), dims.row as nat, dims.col as nat),
            c.height() == dims.row,
            c.width() == dims.col,
            q.height() == dims.row,
            q.width() == dims.col,
            divisor == segments::divisor_of(*config, op.mm),
            p == op_product(*config, *weights, wit, op),
            op_fits(*config, *weights, wit, op),
            out@.len() == i,
            forall|j: int|
                0 <= j < i ==> #[trigger] out@[j] == remainder_at(*config, *weights, wit, op, j),
        decreases n - i,
    {
        let (r, k): (usize, usize) = (i / cp, i % cp);
        let mut v: EF = EF::new_zero();
        if r < dims.row && k < dims.col {
            let (x, y): (i64, i64) = (c.get(r, k), q.get(r, k));
            proof {
                lemma_entry_fits(*config, *weights, wit, op, r as int, k as int);
            }
            v = canonical::ef(x - divisor * y);
        }
        out.push(v);
        i += 1;
    }
    assert(out@ =~= Seq::new(n as nat, |i: int| remainder_at(*config, *weights, wit, op, i)));
    out
}

/// The input of a segment's row `i`.
pub open spec fn row_input(
    d: DescView,
    polys: Map<Seq<char>, Seq<EF>>,
    config: Config,
    w: ModelWeights,
    wit: WitnessView,
    i: int,
) -> EF {
    match d.kind {
        SegView::Direct { bias, offset, out } => {
            let v = polys[d.oracle_in][i] + EF::embed(offset);
            match bias {
                Some(b) => v + b.at(commit::corner(i as nat, d.vars)),
                None => v,
            }
        },
        SegView::TypeA { divisor, mk, q, a, b, op } => remainder_at(config, w, wit, op, i),
        SegView::TypeB { left, right, coeff, linears, constant, instance } => vertex_affine(
            (coeff * vertex_value(left, polys, d.vars, i)) * vertex_value(
                right,
                polys,
                d.vars,
                i,
            ) + constant,
            linears,
            polys,
            d.vars,
            i,
        ),
    }
}

/// The output of a segment's row `i`.
pub open spec fn row_output(d: DescView, polys: Map<Seq<char>, Seq<EF>>, i: int) -> EF {
    match d.kind {
        SegView::Direct { bias, offset, out } => match out {
            Some(o) => polys[o][i],
            None => EF::zero(),
        },
        _ => EF::zero(),
    }
}

/// The inputs of a segment's rows.
pub open spec fn row_inputs(
    d: DescView,
    polys: Map<Seq<char>, Seq<EF>>,
    config: Config,
    w: ModelWeights,
    wit: WitnessView,
) -> Seq<EF> {
    Seq::new(pow2(d.vars), |i: int| row_input(d, polys, config, w, wit, i))
}

/// The outputs of a segment's rows.
pub open spec fn row_outputs(d: DescView, polys: Map<Seq<char>, Seq<EF>>) -> Seq<EF> {
    Seq::new(pow2(d.vars), |i: int| row_output(d, polys, i))
}

/// The products of a segment fit machine integers.
pub open spec fn segment_fits(
    d: DescView,
    config: Config,
    w: ModelWeights,
    wit: WitnessView,
) -> bool {
    d.kind matches SegView::TypeA { divisor, mk, q, a, b, op } ==> op_fits(config, w, wit, op)
}

/// What the values of a segment ask for.
pub open spec fn values_ready(
    d: DescView,
    polys: Map<Seq<char>, Seq<EF>>,
    config: Config,
    w: ModelWeights,
    witness: Witness,
) -> bool {
    &&& segments::segments_fit(config, w)
    &&& shapes::segment_ok(config, w, d)
    &&& shapes::ready(polys, config, w)
    &&& pow2(d.vars) <= usize::MAX
    &&& witness.wf()
    &&& canonical::witness_shaped(witness.contents(), config)
    &&& segment_fits(d, config, w, witness.contents())
}

/// An operand that fits is stored.
pub proof fn lemma_stored(
    config: Config,
    w: ModelWeights,
    src: SourceView,
    n: nat,
    polys: Map<Seq<char>, Seq<EF>>,
)
    requires
        shapes::source_ok(config, w, src, n),
        shapes::ready(polys, config, w),
    ensures
        src.fits(n),
        src.stored(polys),
{
    assert(shapes::named_bits(config, w, src.oracle, src.coords.len()));
}

/// Linear terms that fit are stored.
pub proof fn lemma_linears_stored(
    config: Config,
    w: ModelWeights,
    linears: Seq<LinearView>,
    n: nat,
    polys: Map<Seq<char>, Seq<EF>>,
)
    requires
        shapes::linears_ok(config, w, linears, n),
        shapes::ready(polys, config, w),
    ensures
        linears_ready(linears, polys, n),
{
    assert forall|j: int| 0 <= j < linears.len() implies (#[trigger] linears[j]).src.fits(n)
        && linears[j].src.stored(polys) by {
        lemma_stored(config, w, linears[j].src, n, polys);
    }
}

/// The inputs and outputs of a segment's rows.
pub fn segment_values(
    set: &CommitSet,
    config: &Config,
    weights: &ModelWeights,
    witness: &Witness,
    d: &Descriptor,
) -> (r: (Vec<EF>, Vec<EF>))
    requires
        values_ready(d.contents(), set.kept(), *config, *weights, *witness),
    ensures
        r.0@ == row_inputs(d.contents(), set.kept(), *config, *weights, witness.contents()),
        r.1@ == row_outputs(d.contents(), set.kept()),
{
    let ghost view = d.contents();
    let ghost polys = set.kept();
    let ghost wit = witness.contents();
    let len: usize = commit::two_to(d.vars);
    match &d.kind {
        SegKind::Direct { bias, offset, out } => {
            proof {
                assert(shapes::named_bits(*config, *weights, view.oracle_in, view.vars));
            }
            let in_poly = &set.prover_data(d.oracle_in.as_str()).unwrap().0;
            let shift = EF::from_u64(*offset);
            let mut ins: Vec<EF> = Vec::new();
            let mut i: usize = 0;
            while i < len
                invariant
                    i <= len,
                    len == pow2(view.vars),
                    view == d.contents(),
                    polys == set.kept(),
                    view.kind == (SegView::Direct {
                        bias: segments::option_bias(*bias),
                        offset: *offset as int,
                        out: segments::option_text(*out),
                    }),
                    bias is Some ==> bias->0.contents().fits(view.vars),
                    in_poly@ == polys[view.oracle_in],
                    in_poly@.len() == len,
                    shift == EF::embed(*offset as int),
                    ins@.len() == i,
                    forall|j: int|
                        0 <= j < i ==> #[trigger] ins@[j] == row_input(
                            view,
                            polys,
                            *config,
                            *weights,
                            wit,
                            j,
                        ),
                decreases len - i,
            {
                assert(in_poly.len() == in_poly@.len());
                let mut v: EF = in_poly[i].add(shift);
                match bias {
                    Some(b) => {
                        let at = commit::instance_slice_point(&[], i, d.vars);
                        proof {
                            assert(at@ =~= commit::corner(i as nat, view.vars));
                            commit::lemma_index_bits(i as nat, view.vars);
                        }
                        v = v.add(b.eval(at.as_slice()));
                    },
                    None => {},
                }
                ins.push(v);
                i += 1;
            }
            let outs = match out {
                Some(o) => {
                    assert(shapes::named_bits(*config, *weights, o@, view.vars));
                    poly::copy_slice(set.prover_data(o.as_str()).unwrap().0.as_slice())
                },
                None => zeros(len),
            };
            assert(ins@ =~= row_inputs(view, polys, *config, *weights, wit));
            assert(outs@ =~= row_outputs(view, polys));
            (ins, outs)
        },
        SegKind::TypeA { divisor, mk, q_src, a_src, b_src, op } => {
            proof {
                multilinear::lemma_pow2_mono(
                    segments::mm_col_bits(*config, op.mm),
                    view.vars,
                );
            }
            let ins = remainders(*op, config, weights, witness, len);
            let outs = zeros(len);
            assert(ins@ =~= row_inputs(view, polys, *config, *weights, wit));
            assert(outs@ =~= row_outputs(view, polys));
            (ins, outs)
        },
        SegKind::TypeB { prod_left, prod_right, prod_coeff, linears, constant, instance } => {
            proof {
                lemma_stored(*config, *weights, prod_left.contents(), view.vars, polys);
                lemma_stored(*config, *weights, prod_right.contents(), view.vars, polys);
                lemma_linears_stored(
                    *config,
                    *weights,
                    segments::linear_views(linears@),
                    view.vars,
                    polys,
                );
            }
            let mut ins: Vec<EF> = Vec::new();
            let mut i: usize = 0;
            while i < len
                invariant
                    i <= len,
                    len == pow2(view.vars),
                    view.vars == d.vars,
                    polys == set.kept(),
                    view.kind == (SegView::TypeB {
                        left: prod_left.contents(),
                        right: prod_right.contents(),
                        coeff: *prod_coeff,
                        linears: segments::linear_views(linears@),
                        constant: *constant,
                        instance: *instance,
                    }),
                    prod_left.contents().fits(view.vars),
                    prod_left.contents().stored(polys),
                    prod_right.contents().fits(view.vars),
                    prod_right.contents().stored(polys),
                    linears_ready(segments::linear_views(linears@), polys, view.vars),
                    ins@.len() == i,
                    forall|j: int|
                        0 <= j < i ==> #[trigger] ins@[j] == row_input(
                            view,
                            polys,
                            *config,
                            *weights,
                            wit,
                            j,
                        ),
                decreases len - i,
            {
                let l = source_at_index(prod_left, set, i, d.vars);
                let r = source_at_index(prod_right, set, i, d.vars);
                let start = prod_coeff.mul(l).mul(r).add(*constant);
                ins.push(affine_at_index(start, linears, set, i, d.vars));
                i += 1;
            }
            let outs = zeros(len);
            assert(ins@ =~= row_inputs(view, polys, *config, *weights, wit));
            assert(outs@ =~= row_outputs(view, polys));
            (ins, outs)
        },
    }
}

/// Zeros.
pub fn zeros(n: usize) -> (r: Vec<EF>)
    ensures
        r@ == Seq::new(n as nat, |i: int| EF::zero()),
{
    let mut out: Vec<EF> = Vec::new();
    let mut i: usize = 0;
    while i < n
        invariant
            i <= n,
            out@ == Seq::new(i as nat, |i: int| EF::zero()),
        decreases n - i,
    {
        out.push(EF::new_zero());
        assert(out@ =~= Seq::new((i + 1) as nat, |i: int| EF::zero()));
        i += 1;
    }
    out
}

} // verus!
