//! The residual stream.
//!
//! The input of a normalization is not committed: it is an earlier sub-block's
//! committed output, or the public embedding at the very start. This module opens
//! such an input, and binds every committed output to its residual input, its
//! projection and the projection's bias.
use vstd::prelude::*;
use vstd::arithmetic::power2::pow2;
use crate::field::Field;
use crate::multilinear;
use crate::proofsys::canonical;
use crate::proofsys::canonical::{Kind, X_OUT};
use crate::proofsys::commit;
use crate::proofsys::commit::{ClaimAccumulator, CommitSet, OracleClaimView};
use crate::proofsys::grid;
use crate::proofsys::grid::Grid;
use crate::proofsys::model::ModelWeights;
use crate::proofsys::protocol::EF;
use crate::proofsys::tensor::Matrix;
use crate::proofsys::witness::{Config, Witness};
use crate::utils::oracle::RandomOracle;
use crate::utils::poly::MlPoly;

verus! {

/// Where a value of the residual stream comes from: a committed output, or the
/// public embedding.
#[derive(Clone, Copy, Debug, PartialEq, Eq, Structural)]
pub enum ResidualSource {
    XOut(usize),
    X0,
}

/// The source of normalization `i`'s input: `ln1` reads the block input, `ln2` the
/// attention output of its layer, the final one the last block's output.
pub open spec fn norm_source(config: Config, i: int) -> ResidualSource {
    if i % 2 == 1 || i == 0 {
        output_source(i)
    } else {
        ResidualSource::XOut((i - 1) as usize)
    }
}

/// The source added into output `i`: the attention output adds to the block input,
/// the feed-forward output to its layer's attention output.
pub open spec fn output_source(i: int) -> ResidualSource {
    if i == 0 {
        ResidualSource::X0
    } else {
        ResidualSource::XOut((i - 1) as usize)
    }
}

/// The source of a normalization's input.
pub fn ln_input_source(config: &Config, ln_inst: usize) -> (r: ResidualSource)
    requires
        0 < config.n_layer,
        2 * config.n_layer <= usize::MAX,
        ln_inst <= 2 * config.n_layer,
    ensures
        r == norm_source(*config, ln_inst as int),
        r matches ResidualSource::XOut(j) ==> j < 2 * config.n_layer,
{
    let l: usize = config.n_layer;
    if ln_inst == 2 * l {
        return ResidualSource::XOut(2 * l - 1);
    }
    let layer: usize = ln_inst / 2;
    if ln_inst % 2 == 0 {
        if layer == 0 {
            ResidualSource::X0
        } else {
            ResidualSource::XOut(2 * layer - 1)
        }
    } else {
        ResidualSource::XOut(2 * layer)
    }
}

/// The source added into an output.
pub fn xout_input_source(config: &Config, xout_inst: usize) -> (r: ResidualSource)
    ensures
        r == output_source(xout_inst as int),
        r matches ResidualSource::XOut(j) ==> j < xout_inst,
{
    let layer: usize = xout_inst / 2;
    if xout_inst % 2 == 0 {
        if layer == 0 {
            ResidualSource::X0
        } else {
            ResidualSource::XOut(2 * layer - 1)
        }
    } else {
        ResidualSource::XOut(2 * layer)
    }
}

/// The public embedding in the outputs' element layout.
pub open spec fn embedding_table(config: Config, x0: Grid) -> Seq<EF> {
    canonical::spread(
        x0,
        pow2(canonical::row_bits(config, Kind::XOut)),
        pow2(canonical::col_bits(config, Kind::XOut)),
    )
}

/// The embedding can be written in the outputs' element layout.
pub open spec fn embeds(config: Config, x0: Grid) -> bool {
    canonical::spread_fits(
        x0,
        pow2(canonical::row_bits(config, Kind::XOut)),
        pow2(canonical::col_bits(config, Kind::XOut)),
    )
}

/// An embedding of the outputs' shape is padded with zeros.
pub proof fn lemma_embedding(config: Config, x0: Grid)
    requires
        x0.rows == config.n_seq,
        x0.cols == config.d_model,
    ensures
        embeds(config, x0),
        embedding_table(config, x0) == canonical::padded(
            x0,
            pow2(canonical::row_bits(config, Kind::XOut)),
            pow2(canonical::col_bits(config, Kind::XOut)),
        ),
{
    let rp = pow2(canonical::row_bits(config, Kind::XOut));
    let cp = pow2(canonical::col_bits(config, Kind::XOut));
    commit::lemma_ceil_pow(config.n_seq as int);
    commit::lemma_ceil_pow(config.d_model as int);
    multilinear::lemma_pow2_mono(0, canonical::col_bits(config, Kind::XOut));
    multilinear::lemma_pow2_zero();
    canonical::law_spread_padded(x0, rp, cp);
    if x0.rows > 0 && x0.cols > 0 {
        assert((x0.rows - 1) * cp + x0.cols <= rp * cp) by (nonlinear_arith)
            requires
                0 < x0.rows <= rp,
                x0.cols <= cp,
        ;
    }
}

/// A row repeated over the real rows, in the outputs' element layout.
pub open spec fn row_table(config: Config, bias: Seq<int>) -> Seq<EF> {
    canonical::padded(
        grid::tabulate(config.n_seq as nat, bias.len(), |r: int, c: int| bias[c]),
        pow2(canonical::row_bits(config, Kind::XOut)),
        pow2(canonical::col_bits(config, Kind::XOut)),
    )
}

/// The point that opens instance `i` of a kind at element point `p`.
pub open spec fn slice(config: Config, kind: Kind, p: Seq<EF>, i: int) -> Seq<EF> {
    p + commit::corner(i as nat, canonical::inst_bits(config, kind))
}

/// Instance `i` of a kind at element point `p`.
pub open spec fn slice_value(
    polys: Map<Seq<char>, Seq<EF>>,
    config: Config,
    kind: Kind,
    p: Seq<EF>,
    i: int,
) -> EF {
    multilinear::mle(polys[kind.text()], slice(config, kind, p, i))
}

/// A residual value at element point `p`.
pub open spec fn source_value(
    polys: Map<Seq<char>, Seq<EF>>,
    config: Config,
    x0: Grid,
    p: Seq<EF>,
    src: ResidualSource,
) -> EF {
    match src {
        ResidualSource::XOut(j) => slice_value(polys, config, Kind::XOut, p, j as int),
        ResidualSource::X0 => multilinear::mle(embedding_table(config, x0), p),
    }
}

/// The residual value that a verifier takes: the sent one for a committed output,
/// its own for the embedding.
pub open spec fn taken_value(
    config: Config,
    x0: Grid,
    p: Seq<EF>,
    src: ResidualSource,
    sent: EF,
) -> EF {
    match src {
        ResidualSource::XOut(j) => sent,
        ResidualSource::X0 => multilinear::mle(embedding_table(config, x0), p),
    }
}

/// The claim left by a residual value: none for the embedding.
pub open spec fn source_claims(
    config: Config,
    p: Seq<EF>,
    src: ResidualSource,
    value: EF,
) -> Seq<OracleClaimView> {
    match src {
        ResidualSource::XOut(j) => seq![
            commit::opening(X_OUT@, slice(config, Kind::XOut, p, j as int), value),
        ],
        ResidualSource::X0 => Seq::empty(),
    }
}

/// A kind's polynomial is among `polys` with the kind's number of variables.
pub open spec fn holds_kind(
    polys: Map<Seq<char>, Seq<EF>>,
    config: Config,
    kind: Kind,
) -> bool {
    &&& polys.contains_key(kind.text())
    &&& polys[kind.text()].len() == pow2(canonical::all_bits(config, kind))
}

/// The embedding in the outputs' element layout.
pub fn x0_elem(config: &Config, x0: &Matrix) -> (r: Vec<EF>)
    requires
        canonical::sizes_fit(*config),
        x0.wf(),
        embeds(*config, x0.grid()),
    ensures
        r@ == embedding_table(*config, x0.grid()),
        r@.len() == pow2(canonical::elem_bits(*config, Kind::XOut)),
{
    proof {
        canonical::lemma_layout_fits(*config, Kind::XOut);
    }
    let lay = canonical::layout_of(config, Kind::XOut);
    proof {
        canonical::lemma_sizes(*config, Kind::XOut);
        multilinear::lemma_pow2_mono(0, canonical::col_bits(*config, Kind::XOut));
        multilinear::lemma_pow2_zero();
    }
    canonical::pad_matrix(x0, lay.row_pow, lay.col_pow)
}

/// A row repeated over the real rows, in the outputs' element layout.
fn proj_bias_elem(config: &Config, bias: &Vec<i64>) -> (r: Vec<EF>)
    requires
        canonical::sizes_fit(*config),
        bias@.len() == config.d_model,
    ensures
        r@ == row_table(*config, grid::ints(bias@)),
        r@.len() == pow2(canonical::elem_bits(*config, Kind::XOut)),
{
    let n: usize = config.n_seq;
    let d: usize = config.d_model;
    proof {
        canonical::lemma_layout_fits(*config, Kind::XOut);
    }
    let lay = canonical::layout_of(config, Kind::XOut);
    proof {
        canonical::lemma_sizes(*config, Kind::XOut);
        multilinear::lemma_pow2_mono(0, canonical::col_bits(*config, Kind::XOut));
        multilinear::lemma_pow2_zero();
        assert(n * d <= lay.row_pow * lay.col_pow) by (nonlinear_arith)
            requires
                n <= lay.row_pow,
                d <= lay.col_pow,
        ;
    }
    let mut data: Vec<i64> = Vec::new();
    let total: usize = n * d;
    let mut k: usize = 0;
    while k < total
        invariant
            k <= total,
            total == n * d,
            d == bias@.len(),
            data@.len() == k,
            forall|j: int| 0 <= j < k ==> #[trigger] data@[j] == bias@[j % d as int],
        decreases total - k,
    {
        proof {
            grid::lemma_position(n as nat, d as nat, k as int);
        }
        data.push(bias[k % d]);
        k += 1;
    }
    let m = Matrix::new(n, d, data);
    proof {
        let b = grid::ints(bias@);
        let g = grid::tabulate(n as nat, b.len(), |r: int, c: int| b[c]);
        assert forall|j: int| 0 <= j < total implies m.grid().data[j] == #[trigger] g.data[j] by {
            grid::lemma_position(n as nat, d as nat, j);
            assert(data@[j] == bias@[j % d as int]);
        }
        assert(m.grid().data =~= g.data);
    }
    proof {
        lemma_spread_fits(m.grid(), lay.row_pow as nat, lay.col_pow as nat);
        canonical::law_spread_padded(m.grid(), lay.row_pow as nat, lay.col_pow as nat);
    }
    canonical::pad_matrix(&m, lay.row_pow, lay.col_pow)
}

/// A matrix within the rows and columns can be written in them.
proof fn lemma_spread_fits(g: Grid, rp: nat, cp: nat)
    requires
        g.rows <= rp,
        g.cols <= cp,
    ensures
        canonical::spread_fits(g, rp, cp),
{
    if g.rows > 0 && g.cols > 0 {
        assert((g.rows - 1) * cp + g.cols <= rp * cp) by (nonlinear_arith)
            requires
                0 < g.rows <= rp,
                g.cols <= cp,
        ;
    }
}

/// Opens an instance of a committed kind at an element point, recording the claim.
pub fn open_slice(
    set: &CommitSet,
    config: &Config,
    kind: Kind,
    elem_point: &[EF],
    i: usize,
    acc: &mut ClaimAccumulator,
) -> (r: EF)
    requires
        canonical::sizes_fit(*config),
        holds_kind(set.kept(), *config, kind),
        elem_point@.len() == canonical::elem_bits(*config, kind),
    ensures
        r == slice_value(set.kept(), *config, kind, elem_point@, i as int),
        final(acc).contents() == old(acc).contents().push(
            commit::opening(kind.text(), slice(*config, kind, elem_point@, i as int), r),
        ),
{
    proof {
        canonical::lemma_layout_fits(*config, kind);
    }
    let lay = canonical::layout_of(config, kind);
    let pt = commit::instance_slice_point(elem_point, i, lay.inst_vars());
    proof {
        commit::lemma_index_bits(i as nat, canonical::inst_bits(*config, kind));
    }
    let v = set.evaluate(kind.name(), pt.as_slice());
    acc.open(kind.name(), pt, v);
    v
}

/// Records the claim on an instance of a committed kind.
pub fn claim_slice(
    config: &Config,
    kind: Kind,
    elem_point: &[EF],
    i: usize,
    value: EF,
    acc: &mut ClaimAccumulator,
)
    requires
        canonical::sizes_fit(*config),
    ensures
        final(acc).contents() == old(acc).contents().push(
            commit::opening(kind.text(), slice(*config, kind, elem_point@, i as int), value),
        ),
{
    proof {
        canonical::lemma_layout_fits(*config, kind);
    }
    let lay = canonical::layout_of(config, kind);
    let pt = commit::instance_slice_point(elem_point, i, lay.inst_vars());
    acc.open(kind.name(), pt, value);
}

/// Opens a residual value.
pub fn open_source(
    set: &CommitSet,
    config: &Config,
    x0: &Matrix,
    elem_point: &[EF],
    src: ResidualSource,
    acc: &mut ClaimAccumulator,
) -> (r: EF)
    requires
        canonical::sizes_fit(*config),
        holds_kind(set.kept(), *config, Kind::XOut),
        elem_point@.len() == canonical::elem_bits(*config, Kind::XOut),
        x0.wf(),
        src is X0 ==> embeds(*config, x0.grid()),
    ensures
        r == source_value(set.kept(), *config, x0.grid(), elem_point@, src),
        final(acc).contents() == old(acc).contents() + source_claims(
            *config,
            elem_point@,
            src,
            r,
        ),
{
    let ghost before = acc.contents();
    let v = match src {
        ResidualSource::XOut(j) => open_slice(set, config, Kind::XOut, elem_point, j, acc),
        ResidualSource::X0 => MlPoly(x0_elem(config, x0)).eval(elem_point),
    };
    assert(acc.contents() =~= before + source_claims(*config, elem_point@, src, v));
    v
}

/// Takes a residual value from the sent one.
pub fn take_source(
    config: &Config,
    x0: &Matrix,
    elem_point: &[EF],
    src: ResidualSource,
    sent: EF,
    acc: &mut ClaimAccumulator,
) -> (r: EF)
    requires
        canonical::sizes_fit(*config),
        elem_point@.len() == canonical::elem_bits(*config, Kind::XOut),
        x0.wf(),
        src is X0 ==> embeds(*config, x0.grid()),
    ensures
        r == taken_value(*config, x0.grid(), elem_point@, src, sent),
        final(acc).contents() == old(acc).contents() + source_claims(
            *config,
            elem_point@,
            src,
            sent,
        ),
{
    let ghost before = acc.contents();
    let v = match src {
        ResidualSource::XOut(j) => {
            claim_slice(config, Kind::XOut, elem_point, j, sent, acc);
            sent
        },
        ResidualSource::X0 => MlPoly(x0_elem(config, x0)).eval(elem_point),
    };
    assert(acc.contents() =~= before + source_claims(*config, elem_point@, src, sent));
    v
}

/// The input of normalization `ln_inst` at an element point. A committed source
/// leaves its claim; the embedding leaves none.
pub fn open_x(
    set: &CommitSet,
    config: &Config,
    x0: &Matrix,
    elem_point: &[EF],
    ln_inst: usize,
    acc: &mut ClaimAccumulator,
) -> (r: EF)
    requires
        canonical::sizes_fit(*config),
        holds_kind(set.kept(), *config, Kind::XOut),
        elem_point@.len() == canonical::elem_bits(*config, Kind::XOut),
        x0.wf(),
        ln_inst <= 2 * config.n_layer,
        config.n_layer > 0,
        norm_source(*config, ln_inst as int) is X0 ==> embeds(*config, x0.grid()),
    ensures
        r == source_value(
            set.kept(),
            *config,
            x0.grid(),
            elem_point@,
            norm_source(*config, ln_inst as int),
        ),
        final(acc).contents() == old(acc).contents() + source_claims(
            *config,
            elem_point@,
            norm_source(*config, ln_inst as int),
            r,
        ),
{
    open_source(set, config, x0, elem_point, ln_input_source(config, ln_inst), acc)
}

/// The verifier's side of [`open_x`]: a committed source takes the sent value and
/// leaves the claim, the embedding is recomputed.
pub fn reconstruct_x(
    config: &Config,
    x0: &Matrix,
    elem_point: &[EF],
    ln_inst: usize,
    sent_val: EF,
    acc: &mut ClaimAccumulator,
) -> (r: EF)
    requires
        canonical::sizes_fit(*config),
        elem_point@.len() == canonical::elem_bits(*config, Kind::XOut),
        x0.wf(),
        ln_inst <= 2 * config.n_layer,
        config.n_layer > 0,
        norm_source(*config, ln_inst as int) is X0 ==> embeds(*config, x0.grid()),
    ensures
        r == taken_value(
            *config,
            x0.grid(),
            elem_point@,
            norm_source(*config, ln_inst as int),
            sent_val,
        ),
        final(acc).contents() == old(acc).contents() + source_claims(
            *config,
            elem_point@,
            norm_source(*config, ln_inst as int),
            sent_val,
        ),
{
    take_source(config, x0, elem_point, ln_input_source(config, ln_inst), sent_val, acc)
}

/// The openings of every output, its projection and its residual input, all at one
/// point.
pub struct XOutResidualProof {
    pub xout: Vec<EF>,
    pub proj: Vec<EF>,
    pub x_in: Vec<EF>,
}

impl XOutResidualProof {
    /// Number of field elements.
    pub open spec fn element_count(self) -> nat {
        self.xout@.len() + self.proj@.len() + self.x_in@.len()
    }

    /// Size in bytes of all field elements.
    pub fn size_bytes(&self) -> (r: usize)
        requires
            self.element_count() * EF::byte_size() <= usize::MAX,
        ensures
            r == self.element_count() * EF::byte_size(),
    {
        let size: usize = EF::size();
        assert(size == 16);
        size * (self.xout.len() + self.proj.len() + self.x_in.len())
    }
}

/// The kind of the projection added into output `k`.
pub open spec fn projection_kind(k: int) -> Kind {
    if k % 2 == 0 {
        Kind::QApr
    } else {
        Kind::QFpr
    }
}

/// The projection added into output `k`, and its layer.
fn proj_for(k: usize) -> (r: (Kind, usize))
    ensures
        r.0 == projection_kind(k as int),
        r.1 == k / 2,
{
    if k % 2 == 0 {
        (Kind::QApr, k / 2)
    } else {
        (Kind::QFpr, k / 2)
    }
}

/// The bias of the projection added into output `k`.
pub open spec fn projection_bias(w: ModelWeights, k: int) -> Seq<int> {
    if k % 2 == 0 {
        grid::ints(w.blocks@[k / 2].attn_proj_b@)
    } else {
        grid::ints(w.blocks@[k / 2].fproj_b@)
    }
}

/// The claims left by the first `n` outputs.
pub open spec fn residual_claims(
    config: Config,
    p: Seq<EF>,
    xout: Seq<EF>,
    proj: Seq<EF>,
    x_in: Seq<EF>,
    n: nat,
) -> Seq<OracleClaimView>
    decreases n,
{
    if n == 0 {
        Seq::empty()
    } else {
        let k = n - 1;
        residual_claims(config, p, xout, proj, x_in, (n - 1) as nat).push(
            commit::opening(X_OUT@, slice(config, Kind::XOut, p, k), xout[k]),
        ).push(
            commit::opening(
                projection_kind(k).text(),
                slice(config, projection_kind(k), p, k / 2),
                proj[k],
            ),
        ) + source_claims(config, p, output_source(k), x_in[k])
    }
}

/// The honest openings at point `p`.
pub open spec fn honest_residual(
    proof: XOutResidualProof,
    polys: Map<Seq<char>, Seq<EF>>,
    config: Config,
    x0: Grid,
    p: Seq<EF>,
) -> bool {
    let n = (2 * config.n_layer) as nat;
    &&& proof.xout@ == Seq::new(n, |k: int| slice_value(polys, config, Kind::XOut, p, k))
    &&& proof.proj@ == Seq::new(
        n,
        |k: int| slice_value(polys, config, projection_kind(k), p, k / 2),
    )
    &&& proof.x_in@ == Seq::new(
        n,
        |k: int| source_value(polys, config, x0, p, output_source(k)),
    )
}

/// The residual identity of output `k` at point `p`.
pub open spec fn residual_identity(
    proof: XOutResidualProof,
    config: Config,
    w: ModelWeights,
    x0: Grid,
    p: Seq<EF>,
    k: int,
) -> bool {
    proof.xout@[k] == taken_value(config, x0, p, output_source(k), proof.x_in@[k])
        + proof.proj@[k] + multilinear::mle(row_table(config, projection_bias(w, k)), p)
}

/// Opens every output, its projection and its residual input at one fresh point.
pub fn prove_xout_residual(
    set: &CommitSet,
    config: &Config,
    weights: &ModelWeights,
    witness: &Witness,
    acc: &mut ClaimAccumulator,
    oracle: &mut RandomOracle<EF>,
) -> (r: XOutResidualProof)
    requires
        canonical::sizes_fit(*config),
        holds_kind(set.kept(), *config, Kind::XOut),
        holds_kind(set.kept(), *config, Kind::QApr),
        holds_kind(set.kept(), *config, Kind::QFpr),
        witness.x0.wf(),
        config.n_layer > 0 ==> embeds(*config, witness.x0.grid()),
        old(oracle).has_fields(canonical::elem_bits(*config, Kind::XOut) as int),
    ensures
        ({
            let b = canonical::elem_bits(*config, Kind::XOut);
            let p = old(oracle).upcoming(b);
            &&& honest_residual(r, set.kept(), *config, witness.x0.grid(), p)
            &&& final(acc).contents() == old(acc).contents() + residual_claims(
                *config,
                p,
                r.xout@,
                r.proj@,
                r.x_in@,
                (2 * config.n_layer) as nat,
            )
            &&& final(oracle).wf()
            &&& old(oracle).advanced(*final(oracle), b as int, 0)
        }),
{
    let ghost before = acc.contents();
    proof {
        canonical::lemma_layout_fits(*config, Kind::XOut);
    }
    let lay = canonical::layout_of(config, Kind::XOut);
    let p = oracle.next_n_fields(lay.elem_vars());
    let n: usize = 2 * config.n_layer;
    let mut xout: Vec<EF> = Vec::new();
    let mut proj: Vec<EF> = Vec::new();
    let mut x_in: Vec<EF> = Vec::new();
    let mut k: usize = 0;
    let ghost polys = set.kept();
    let ghost x0 = witness.x0.grid();
    assert(before + residual_claims(*config, p@, xout@, proj@, x_in@, 0) =~= before);
    while k < n
        invariant
            k <= n,
            n == 2 * config.n_layer,
            canonical::sizes_fit(*config),
            polys == set.kept(),
            x0 == witness.x0.grid(),
            holds_kind(polys, *config, Kind::XOut),
            holds_kind(polys, *config, Kind::QApr),
            holds_kind(polys, *config, Kind::QFpr),
            witness.x0.wf(),
            config.n_layer > 0 ==> embeds(*config, witness.x0.grid()),
            p@.len() == canonical::elem_bits(*config, Kind::XOut),
            xout@ == Seq::new(
                k as nat,
                |k: int| slice_value(polys, *config, Kind::XOut, p@, k),
            ),
            proj@ == Seq::new(
                k as nat,
                |k: int| slice_value(polys, *config, projection_kind(k), p@, k / 2),
            ),
            x_in@ == Seq::new(
                k as nat,
                |k: int| source_value(polys, *config, x0, p@, output_source(k)),
            ),
            acc.contents() == before + residual_claims(
                *config,
                p@,
                xout@,
                proj@,
                x_in@,
                k as nat,
            ),
        decreases n - k,
    {
        let ghost (xs, ps, is) = (xout@, proj@, x_in@);
        let xv = open_slice(set, config, Kind::XOut, p.as_slice(), k, acc);
        xout.push(xv);
        let (kind, layer) = proj_for(k);
        let pv = open_slice(set, config, kind, p.as_slice(), layer, acc);
        proj.push(pv);
        let iv = open_source(
            set,
            config,
            &witness.x0,
            p.as_slice(),
            xout_input_source(config, k),
            acc,
        );
        x_in.push(iv);
        proof {
            lemma_claims_prefix(*config, p@, xs, ps, is, xout@, proj@, x_in@, k as nat);
            assert(acc.contents() =~= before + residual_claims(
                *config,
                p@,
                xout@,
                proj@,
                x_in@,
                (k + 1) as nat,
            ));
            assert(xout@ =~= Seq::new(
                (k + 1) as nat,
                |k: int| slice_value(polys, *config, Kind::XOut, p@, k),
            ));
            assert(proj@ =~= Seq::new(
                (k + 1) as nat,
                |k: int| slice_value(polys, *config, projection_kind(k), p@, k / 2),
            ));
            assert(x_in@ =~= Seq::new(
                (k + 1) as nat,
                |k: int| source_value(polys, *config, x0, p@, output_source(k)),
            ));
        }
        k += 1;
    }
    XOutResidualProof { xout, proj, x_in }
}

proof fn lemma_claims_prefix(
    config: Config,
    p: Seq<EF>,
    a: Seq<EF>,
    b: Seq<EF>,
    c: Seq<EF>,
    x: Seq<EF>,
    y: Seq<EF>,
    z: Seq<EF>,
    n: nat,
)
    requires
        forall|i: int| 0 <= i < n ==> a[i] == x[i],
        forall|i: int| 0 <= i < n ==> b[i] == y[i],
        forall|i: int| 0 <= i < n ==> c[i] == z[i],
    ensures
        residual_claims(config, p, a, b, c, n) == residual_claims(config, p, x, y, z, n),
    decreases n,
{
    if n > 0 {
        lemma_claims_prefix(config, p, a, b, c, x, y, z, (n - 1) as nat);
    }
}

/// The proof has one entry of each sort for every output.
pub open spec fn residual_shape(proof: XOutResidualProof, config: Config) -> bool {
    &&& proof.xout@.len() == 2 * config.n_layer
    &&& proof.proj@.len() == 2 * config.n_layer
    &&& proof.x_in@.len() == 2 * config.n_layer
}

/// The number of outputs whose claims are recorded, from output `k` on: the check
/// stops after the first identity that fails.
pub open spec fn outputs_recorded(
    proof: XOutResidualProof,
    config: Config,
    weights: ModelWeights,
    x0: Grid,
    p: Seq<EF>,
    k: nat,
) -> nat
    decreases 2 * config.n_layer - k,
{
    if k >= 2 * config.n_layer {
        k
    } else if residual_identity(proof, config, weights, x0, p, k as int) {
        outputs_recorded(proof, config, weights, x0, p, k + 1)
    } else {
        k + 1
    }
}

/// Checks the residual identity of every output at one fresh point and records all
/// claims. A proof of the wrong shape reads nothing; a failed identity stops after
/// its own claims.
pub fn verify_xout_residual(
    proof: &XOutResidualProof,
    config: &Config,
    weights: &ModelWeights,
    x0: &Matrix,
    acc: &mut ClaimAccumulator,
    oracle: &mut RandomOracle<EF>,
) -> (r: bool)
    requires
        canonical::sizes_fit(*config),
        weights.wf(*config),
        weights.blocks@.len() == config.n_layer,
        x0.wf(),
        residual_shape(*proof, *config) && config.n_layer > 0 ==> embeds(*config, x0.grid()),
        old(oracle).wf(),
        residual_shape(*proof, *config) ==> old(oracle).has_fields(
            canonical::elem_bits(*config, Kind::XOut) as int,
        ),
    ensures
        ({
            let b = canonical::elem_bits(*config, Kind::XOut);
            let p = old(oracle).upcoming(b);
            let n = (2 * config.n_layer) as nat;
            &&& r <==> residual_shape(*proof, *config) && forall|k: int|
                0 <= k < n ==> #[trigger] residual_identity(
                    *proof,
                    *config,
                    *weights,
                    x0.grid(),
                    p,
                    k,
                )
            &&& residual_shape(*proof, *config) ==> {
                &&& final(acc).contents() == old(acc).contents() + residual_claims(
                    *config,
                    p,
                    proof.xout@,
                    proof.proj@,
                    proof.x_in@,
                    outputs_recorded(*proof, *config, *weights, x0.grid(), p, 0),
                )
                &&& r ==> outputs_recorded(*proof, *config, *weights, x0.grid(), p, 0) == n
                &&& old(oracle).advanced(*final(oracle), b as int, 0)
            }
            &&& !residual_shape(*proof, *config) ==> {
                &&& final(acc).contents() == old(acc).contents()
                &&& *final(oracle) == *old(oracle)
            }
            &&& final(oracle).wf()
        }),
{
    let ghost before = acc.contents();
    proof {
        canonical::lemma_layout_fits(*config, Kind::XOut);
    }
    let lay = canonical::layout_of(config, Kind::XOut);
    let n: usize = 2 * config.n_layer;
    let ghost draw = oracle.upcoming(canonical::elem_bits(*config, Kind::XOut));
    assert(before + residual_claims(
        *config,
        draw,
        proof.xout@,
        proof.proj@,
        proof.x_in@,
        0,
    ) =~= before);
    if proof.xout.len() != n || proof.proj.len() != n || proof.x_in.len() != n {
        return false;
    }
    let p = oracle.next_n_fields(lay.elem_vars());
    let mut k: usize = 0;
    while k < n
        invariant
            k <= n,
            n == 2 * config.n_layer,
            canonical::sizes_fit(*config),
            residual_shape(*proof, *config),
            weights.wf(*config),
            weights.blocks@.len() == config.n_layer,
            x0.wf(),
            config.n_layer > 0 ==> embeds(*config, x0.grid()),
            p@ == draw,
            before == old(acc).contents(),
            draw == old(oracle).upcoming(canonical::elem_bits(*config, Kind::XOut)),
            p@.len() == canonical::elem_bits(*config, Kind::XOut),
            forall|j: int|
                0 <= j < k ==> #[trigger] residual_identity(
                    *proof,
                    *config,
                    *weights,
                    x0.grid(),
                    p@,
                    j,
                ),
            acc.contents() == before + residual_claims(
                *config,
                p@,
                proof.xout@,
                proof.proj@,
                proof.x_in@,
                k as nat,
            ),
            outputs_recorded(*proof, *config, *weights, x0.grid(), p@, 0) == outputs_recorded(
                *proof,
                *config,
                *weights,
                x0.grid(),
                p@,
                k as nat,
            ),
            oracle.wf(),
            old(oracle).advanced(
                *oracle,
                canonical::elem_bits(*config, Kind::XOut) as int,
                0,
            ),
        decreases n - k,
    {
        assert(proof.xout.len() == n && proof.proj.len() == n && proof.x_in.len() == n);
        let xv = proof.xout[k];
        let pv = proof.proj[k];
        let iv = proof.x_in[k];
        claim_slice(config, Kind::XOut, p.as_slice(), k, xv, acc);
        let (kind, layer) = proj_for(k);
        claim_slice(config, kind, p.as_slice(), layer, pv, acc);
        let xin = take_source(
            config,
            x0,
            p.as_slice(),
            xout_input_source(config, k),
            iv,
            acc,
        );
        proof {
            assert(acc.contents() =~= before + residual_claims(
                *config,
                p@,
                proof.xout@,
                proof.proj@,
                proof.x_in@,
                (k + 1) as nat,
            ));
            assert(weights.blocks@[k as int / 2].wf(*config));
        }
        let bias = if k % 2 == 0 {
            &weights.blocks[k / 2].attn_proj_b
        } else {
            &weights.blocks[k / 2].fproj_b
        };
        let bias_v = MlPoly(proj_bias_elem(config, bias)).eval(p.as_slice());
        let expected = xin.add(pv).add(bias_v);
        if !xv.equals(expected) {
            assert(!residual_identity(*proof, *config, *weights, x0.grid(), p@, k as int));
            return false;
        }
        k += 1;
    }
    true
}

} // verus!
