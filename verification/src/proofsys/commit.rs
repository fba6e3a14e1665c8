//! Commitments by name, and the opening claims against them.
//!
//! A fixed set of polynomials is committed once. Every reduction then ends in
//! opening claims `(oracle, point, value)` against that set, which one batched
//! opening discharges. Instances of one kind are stacked into a single polynomial:
//! the element index on the low variables, the instance index on the high ones.
use vstd::prelude::*;
use vstd::arithmetic::power2::pow2;
use crate::algebra;
use crate::field::Field;
use crate::multilinear;
use crate::pcs::scheme::{PlaceholderCommit, PlaceholderPcs, PolyCommitmentScheme};
use crate::proofsys::protocol::EF;
use crate::utils::poly;
use crate::utils::poly::MlPoly;

verus! {

/// The commitment scheme of the proof system.
pub type Pcs = PlaceholderPcs<EF>;

pub type Commitment = PlaceholderCommit<EF>;

pub type ProverData = MlPoly<EF>;

/// `k` is the exponent of the least power of two that is at least `n`.
pub open spec fn is_ceil_log(n: int, k: nat) -> bool {
    &&& n <= pow2(k)
    &&& k > 0 ==> pow2((k - 1) as nat) < n
}

/// The exponent of the least power of two that is at least `n`.
pub open spec fn ceil_log(n: int) -> nat {
    choose|k: nat| is_ceil_log(n, k)
}

/// The least power of two that is at least `n`.
pub open spec fn ceil_pow(n: int) -> nat {
    pow2(ceil_log(n))
}

pub proof fn lemma_ceil_log(n: int, k: nat)
    requires
        is_ceil_log(n, k),
    ensures
        ceil_log(n) == k,
        ceil_pow(n) == pow2(k),
{
    let j = ceil_log(n);
    assert(is_ceil_log(n, j));
    if j < k {
        multilinear::lemma_pow2_mono(j, (k - 1) as nat);
    }
    if k < j {
        multilinear::lemma_pow2_mono(k, (j - 1) as nat);
    }
}

/// The least power of two that is at least `n` exists, and lies below `2 n`.
pub proof fn lemma_ceil_pow(n: int)
    ensures
        is_ceil_log(n, ceil_log(n)),
        n <= ceil_pow(n),
        0 < ceil_pow(n),
        n > 0 ==> ceil_pow(n) < 2 * n,
{
    let m = if n > 0 {
        n as nat
    } else {
        0
    };
    lemma_ceil_exists(n, m);
    let k = ceil_log(n);
    assert(is_ceil_log(n, k));
    multilinear::lemma_pow2_mono(0, k);
    multilinear::lemma_pow2_zero();
    if k > 0 {
        multilinear::lemma_pow2_step(k);
    }
}

proof fn lemma_ceil_exists(n: int, m: nat)
    requires
        n <= m,
    ensures
        exists|k: nat| is_ceil_log(n, k),
    decreases m,
{
    lemma_pow2_above(m);
    let j = lemma_ceil_search(n, m);
    assert(is_ceil_log(n, j));
}

proof fn lemma_pow2_above(m: nat)
    ensures
        m < pow2(m),
    decreases m,
{
    if m == 0 {
        multilinear::lemma_pow2_zero();
    } else {
        lemma_pow2_above((m - 1) as nat);
        multilinear::lemma_pow2_step(m);
    }
}

proof fn lemma_ceil_search(n: int, k: nat) -> (j: nat)
    requires
        n <= pow2(k),
    ensures
        is_ceil_log(n, j),
    decreases k,
{
    if k > 0 && n <= pow2((k - 1) as nat) {
        lemma_ceil_search(n, (k - 1) as nat)
    } else {
        k
    }
}

/// The exponent of the least power of two that is at least `n`.
pub fn log_ceil(n: usize) -> (r: usize)
    ensures
        r == ceil_log(n as int),
        r <= 64,
{
    let mut k: usize = 0;
    let mut cur: u128 = 1;
    proof {
        multilinear::lemma_pow2_zero();
        vstd::arithmetic::power2::lemma2_to64_rest();
    }
    while cur < n as u128
        invariant
            k <= 64,
            cur == pow2(k as nat),
            k > 0 ==> pow2((k - 1) as nat) < n,
            pow2(64) == 0x1_0000_0000_0000_0000,
        decreases 64 - k,
    {
        proof {
            if k == 64 {
                assert(cur >= n);
            }
            multilinear::lemma_pow2_step((k + 1) as nat);
            multilinear::lemma_pow2_mono(k as nat, 64);
        }
        cur = cur * 2;
        k += 1;
    }
    proof {
        lemma_ceil_log(n as int, k as nat);
    }
    k
}

/// The least power of two that is at least `n`.
pub fn pow_ceil(n: usize) -> (r: usize)
    requires
        ceil_pow(n as int) <= usize::MAX,
    ensures
        r == ceil_pow(n as int),
        r > 0,
{
    let k: usize = log_ceil(n);
    proof {
        lemma_ceil_pow(n as int);
    }
    two_to(k)
}

/// `2^k`.
pub fn two_to(k: usize) -> (r: usize)
    requires
        pow2(k as nat) <= usize::MAX,
    ensures
        r == pow2(k as nat),
        r > 0,
{
    let mut r: usize = 1;
    let mut i: usize = 0;
    proof {
        multilinear::lemma_pow2_zero();
    }
    while i < k
        invariant
            i <= k,
            r == pow2(i as nat),
            r > 0,
            pow2(k as nat) <= usize::MAX,
        decreases k - i,
    {
        proof {
            multilinear::lemma_pow2_step((i + 1) as nat);
            multilinear::lemma_pow2_mono((i + 1) as nat, k as nat);
        }
        r = r * 2;
        i += 1;
    }
    r
}

/// The lowest `k` bits of `n`, lowest first.
pub open spec fn index_bits(n: nat, k: nat) -> Seq<bool>
    decreases k,
{
    if k == 0 {
        Seq::empty()
    } else {
        seq![n % 2 == 1] + index_bits(n / 2, (k - 1) as nat)
    }
}

/// The vertex of the `k`-dimensional cube with index `n`.
pub open spec fn corner(n: nat, k: nat) -> Seq<EF> {
    multilinear::vertex(index_bits(n, k))
}

pub proof fn lemma_index_bits(n: nat, k: nat)
    ensures
        index_bits(n, k).len() == k,
        corner(n, k).len() == k,
        multilinear::vertex_index(index_bits(n, k)) == n % pow2(k),
    decreases k,
{
    multilinear::lemma_pow2_zero();
    if k > 0 {
        lemma_index_bits(n / 2, (k - 1) as nat);
        multilinear::lemma_pow2_step(k);
        let bits = index_bits(n, k);
        assert(bits.drop_first() =~= index_bits(n / 2, (k - 1) as nat));
        let m = pow2((k - 1) as nat);
        vstd::arithmetic::div_mod::lemma_mod_breakdown(n as int, 2, m as int);
        assert(pow2(k) == 2 * m);
    }
}

pub proof fn lemma_corner_step(n: nat, k: nat)
    requires
        k > 0,
    ensures
        corner(n, k) == seq![
            if n % 2 == 1 {
                EF::one()
            } else {
                EF::zero()
            },
        ] + corner(n / 2, (k - 1) as nat),
{
    lemma_index_bits(n, k);
    lemma_index_bits(n / 2, (k - 1) as nat);
    assert(corner(n, k) =~= seq![
        if n % 2 == 1 {
            EF::one()
        } else {
            EF::zero()
        },
    ] + corner(n / 2, (k - 1) as nat));
}

/// A canonical coordinate as a function of an operand point: a fixed bit, or an
/// operand variable.
#[derive(Clone, Copy, Debug)]
pub enum Coord {
    Const(bool),
    Var(usize),
}

/// The value of a coordinate at an operand point.
pub open spec fn coord_value(c: Coord, point: Seq<EF>) -> EF {
    match c {
        Coord::Const(b) => if b {
            EF::one()
        } else {
            EF::zero()
        },
        Coord::Var(i) => point[i as int],
    }
}

/// The canonical point of an operand point.
pub open spec fn mapped(coords: Seq<Coord>, point: Seq<EF>) -> Seq<EF> {
    Seq::new(coords.len(), |i: int| coord_value(coords[i], point))
}

/// Every variable is one of the first `n`.
pub open spec fn coords_within(coords: Seq<Coord>, n: nat) -> bool {
    forall|i: int| 0 <= i < coords.len() ==> coord_within(#[trigger] coords[i], n)
}

pub open spec fn coord_within(c: Coord, n: nat) -> bool {
    match c {
        Coord::Const(b) => true,
        Coord::Var(i) => i < n,
    }
}

/// The variables `0, .., n - 1` in order.
pub open spec fn variables(from: nat, n: nat) -> Seq<Coord> {
    Seq::new(n, |i: int| Coord::Var((from + i) as usize))
}

/// Fixed coordinates.
pub open spec fn constants(bits: Seq<bool>) -> Seq<Coord> {
    Seq::new(bits.len(), |i: int| Coord::Const(bits[i]))
}

/// Maps an operand point to a point of a committed polynomial.
#[derive(Clone, Debug)]
pub struct PointMap(pub Vec<Coord>);

impl PointMap {
    /// The canonical point of `operand_point`.
    pub fn apply(&self, operand_point: &[EF]) -> (r: Vec<EF>)
        requires
            coords_within(self.0@, operand_point@.len()),
        ensures
            r@ == mapped(self.0@, operand_point@),
    {
        let mut out: Vec<EF> = Vec::new();
        let mut i: usize = 0;
        while i < self.0.len()
            invariant
                i <= self.0.len(),
                coords_within(self.0@, operand_point@.len()),
                out@ == mapped(self.0@, operand_point@).take(i as int),
            decreases self.0.len() - i,
        {
            assert(coord_within(self.0@[i as int], operand_point@.len()));
            let v: EF = match self.0[i] {
                Coord::Const(b) => if b {
                    EF::new_one()
                } else {
                    EF::new_zero()
                },
                Coord::Var(k) => operand_point[k],
            };
            out.push(v);
            assert(mapped(self.0@, operand_point@).take(i + 1) =~= mapped(
                self.0@,
                operand_point@,
            ).take(i as int).push(mapped(self.0@, operand_point@)[i as int]));
            i += 1;
        }
        assert(mapped(self.0@, operand_point@).take(i as int) =~= mapped(
            self.0@,
            operand_point@,
        ));
        out
    }

    /// The variables `0, .., n - 1` in order.
    pub fn identity(n: usize) -> (r: Self)
        ensures
            r.0@ == variables(0, n as nat),
    {
        PointMap(Vec::new()).with_variables(0, n)
    }

    /// Appends the variables `from, .., from + n - 1`.
    pub fn with_variables(self, from: usize, n: usize) -> (r: Self)
        requires
            from + n <= usize::MAX,
        ensures
            r.0@ == self.0@ + variables(from as nat, n as nat),
    {
        let mut coords = self.0;
        let ghost before = coords@;
        let mut i: usize = 0;
        assert(before + variables(from as nat, 0) =~= before);
        while i < n
            invariant
                i <= n,
                from + n <= usize::MAX,
                coords@ == before + variables(from as nat, i as nat),
            decreases n - i,
        {
            coords.push(Coord::Var(from + i));
            assert(before + variables(from as nat, (i + 1) as nat) =~= (before + variables(
                from as nat,
                i as nat,
            )).push(Coord::Var((from + i) as usize)));
            i += 1;
        }
        PointMap(coords)
    }

    /// Appends the lowest `bits` bits of `idx` as constants, lowest first.
    pub fn with_const_suffix(self, idx: usize, bits: usize) -> (r: Self)
        ensures
            r.0@ == self.0@ + constants(index_bits(idx as nat, bits as nat)),
    {
        let mut coords = self.0;
        let ghost before = coords@;
        let ghost goal = before + constants(index_bits(idx as nat, bits as nat));
        let mut rest: usize = idx;
        let mut i: usize = 0;
        while i < bits
            invariant
                i <= bits,
                coords@ + constants(index_bits(rest as nat, (bits - i) as nat)) == goal,
            decreases bits - i,
        {
            let ghost seen = coords@;
            let ghost n = (bits - i) as nat;
            proof {
                lemma_index_bits(rest as nat, n);
                lemma_index_bits(rest as nat / 2, (n - 1) as nat);
            }
            coords.push(Coord::Const(rest % 2 == 1));
            assert(coords@ + constants(index_bits(rest as nat / 2, (n - 1) as nat)) =~= seen
                + constants(index_bits(rest as nat, n)));
            rest = rest / 2;
            i += 1;
        }
        assert(coords@ + constants(index_bits(rest as nat, 0)) =~= coords@);
        PointMap(coords)
    }
}

/// A public multilinear term that depends on some of the operand variables.
#[derive(Clone, Debug)]
pub struct BiasPoly {
    pub values: Vec<EF>,
    pub vars: Vec<usize>,
}

/// The contents of a bias.
#[verifier::ext_equal]
pub struct BiasView {
    pub values: Seq<EF>,
    pub vars: Seq<int>,
}

/// Machine indices as integers.
pub open spec fn positions(s: Seq<usize>) -> Seq<int> {
    Seq::new(s.len(), |i: int| s[i] as int)
}

impl BiasView {
    /// The operand variables that the bias reads.
    pub open spec fn chosen(self, point: Seq<EF>) -> Seq<EF> {
        Seq::new(self.vars.len(), |i: int| point[self.vars[i]])
    }

    /// The value at an operand point.
    pub open spec fn at(self, point: Seq<EF>) -> EF {
        multilinear::mle(self.values, self.chosen(point))
    }

    /// No coordinate is used twice.
    pub open spec fn injective(self) -> bool {
        forall|i: int, j: int|
            0 <= i < j < self.vars.len() ==> #[trigger] self.vars[i] != #[trigger] self.vars[j]
    }

    /// The table has one value for each vertex, and the variables are among the
    /// first `n`.
    pub open spec fn fits(self, n: nat) -> bool {
        &&& self.values.len() == pow2(self.vars.len())
        &&& forall|i: int| 0 <= i < self.vars.len() ==> 0 <= #[trigger] self.vars[i] < n
    }
}

impl BiasPoly {
    pub open spec fn contents(self) -> BiasView {
        BiasView { values: self.values@, vars: positions(self.vars@) }
    }

    /// The value at an operand point.
    pub fn eval(&self, operand_point: &[EF]) -> (r: EF)
        requires
            self.contents().fits(operand_point@.len()),
        ensures
            r == self.contents().at(operand_point@),
    {
        let mut sub: Vec<EF> = Vec::new();
        let mut i: usize = 0;
        let ghost goal = self.contents().chosen(operand_point@);
        while i < self.vars.len()
            invariant
                i <= self.vars.len(),
                self.contents().fits(operand_point@.len()),
                goal == self.contents().chosen(operand_point@),
                sub@ == goal.take(i as int),
            decreases self.vars.len() - i,
        {
            assert(self.contents().vars[i as int] == self.vars@[i as int] as int);
            sub.push(operand_point[self.vars[i]]);
            assert(goal.take(i + 1) =~= goal.take(i as int).push(goal[i as int]));
            i += 1;
        }
        assert(goal.take(i as int) =~= goal);
        MlPoly(poly::copy_slice(self.values.as_slice())).eval(sub.as_slice())
    }
}

/// How a virtual operand reduces to a committed polynomial: the operand at a point
/// is the committed polynomial at the mapped point, plus a public bias.
#[derive(Clone, Debug)]
pub struct OracleSource {
    pub oracle: String,
    pub map: PointMap,
    pub bias: Option<BiasPoly>,
}

/// The contents of a source.
#[verifier::ext_equal]
pub struct SourceView {
    pub oracle: Seq<char>,
    pub coords: Seq<Coord>,
    pub bias: Option<BiasView>,
}

impl SourceView {
    /// The point at which the committed polynomial is opened.
    pub open spec fn target(self, point: Seq<EF>) -> Seq<EF> {
        mapped(self.coords, point)
    }

    /// The public term at an operand point.
    pub open spec fn bias_at(self, point: Seq<EF>) -> EF {
        match self.bias {
            Some(b) => b.at(point),
            None => EF::zero(),
        }
    }

    /// No coordinate of the operand point is used twice.
    pub open spec fn injective(self) -> bool {
        &&& forall|i: int, j: int|
            0 <= i < j < self.coords.len() && self.coords[i] is Var ==> #[trigger] self.coords[i]
                != #[trigger] self.coords[j]
        &&& self.bias is Some ==> self.bias->0.injective()
    }

    /// Points of length `n` determine the target and the bias.
    pub open spec fn fits(self, n: nat) -> bool {
        &&& coords_within(self.coords, n)
        &&& self.bias is Some ==> self.bias->0.fits(n)
    }

    /// The committed polynomials hold the source's, with as many variables as the
    /// source has coordinates.
    pub open spec fn stored(self, polys: Map<Seq<char>, Seq<EF>>) -> bool {
        &&& polys.contains_key(self.oracle)
        &&& polys[self.oracle].len() == pow2(self.coords.len())
    }

    /// The operand's value at a point.
    pub open spec fn value(self, polys: Map<Seq<char>, Seq<EF>>, point: Seq<EF>) -> EF {
        multilinear::mle(polys[self.oracle], self.target(point)) + self.bias_at(point)
    }

    /// The claim left by the operand taking `value` at `point`.
    pub open spec fn claim(self, point: Seq<EF>, value: EF) -> OracleClaimView {
        OracleClaimView {
            oracle: self.oracle,
            point: self.target(point),
            value: value - self.bias_at(point),
        }
    }
}

/// The source of a committed polynomial under a point map.
pub open spec fn committed_source(oracle: Seq<char>, coords: Seq<Coord>) -> SourceView {
    SourceView { oracle, coords, bias: None }
}

impl OracleSource {
    pub open spec fn contents(self) -> SourceView {
        SourceView {
            oracle: self.oracle@,
            coords: self.map.0@,
            bias: match self.bias {
                Some(b) => Some(b.contents()),
                None => None,
            },
        }
    }

    /// The committed polynomial `oracle` under `map`, without a bias.
    pub fn committed(oracle: &str, map: PointMap) -> (r: Self)
        ensures
            r.contents() == committed_source(oracle@, map.0@),
    {
        OracleSource { oracle: oracle.to_owned(), map, bias: None }
    }

    /// The same source with a public bias.
    pub fn with_bias(self, bias: BiasPoly) -> (r: Self)
        ensures
            r.contents() == (SourceView { bias: Some(bias.contents()), ..self.contents() }),
    {
        OracleSource { oracle: self.oracle, map: self.map, bias: Some(bias) }
    }

    /// The public term at `operand_point`.
    pub fn bias_at(&self, operand_point: &[EF]) -> (r: EF)
        requires
            self.contents().fits(operand_point@.len()),
        ensures
            r == self.contents().bias_at(operand_point@),
    {
        match &self.bias {
            Some(b) => b.eval(operand_point),
            None => EF::new_zero(),
        }
    }

    /// Records the opening claim left by the operand taking `operand_value` at
    /// `operand_point`.
    pub fn emit(&self, acc: &mut ClaimAccumulator, operand_point: &[EF], operand_value: EF)
        requires
            self.contents().fits(operand_point@.len()),
        ensures
            final(acc).contents() == old(acc).contents().push(
                self.contents().claim(operand_point@, operand_value),
            ),
    {
        let point = self.map.apply(operand_point);
        acc.open(
            self.oracle.as_str(),
            point,
            operand_value.sub(self.bias_at(operand_point)),
        );
    }

    /// The operand's value at a point, from the committed polynomials.
    pub fn value(&self, set: &CommitSet, operand_point: &[EF]) -> (r: EF)
        requires
            self.contents().fits(operand_point@.len()),
            self.contents().stored(set.kept()),
        ensures
            r == self.contents().value(set.kept(), operand_point@),
    {
        let point = self.map.apply(operand_point);
        let v = set.evaluate(self.oracle.as_str(), point.as_slice());
        v.add(self.bias_at(operand_point))
    }
}

/// One opening claim against a named committed polynomial.
#[derive(Clone, Debug)]
pub struct OracleClaim {
    pub oracle: String,
    pub point: Vec<EF>,
    pub value: EF,
}

/// The contents of a claim.
#[verifier::ext_equal]
pub struct OracleClaimView {
    pub oracle: Seq<char>,
    pub point: Seq<EF>,
    pub value: EF,
}

impl OracleClaim {
    pub open spec fn contents(self) -> OracleClaimView {
        OracleClaimView { oracle: self.oracle@, point: self.point@, value: self.value }
    }
}

impl OracleClaimView {
    /// The named polynomial takes the claimed value at the point.
    pub open spec fn holds(self, polys: Map<Seq<char>, Seq<EF>>) -> bool {
        self.value == multilinear::mle(polys[self.oracle], self.point)
    }

    /// The polynomial is among `polys` and has the point's number of variables.
    pub open spec fn stored(self, polys: Map<Seq<char>, Seq<EF>>) -> bool {
        &&& polys.contains_key(self.oracle)
        &&& polys[self.oracle].len() == pow2(self.point.len())
    }
}

/// The claim that polynomial `oracle` takes `value` at `point`.
pub open spec fn opening(oracle: Seq<char>, point: Seq<EF>, value: EF) -> OracleClaimView {
    OracleClaimView { oracle, point, value }
}

/// All claims hold.
pub open spec fn all_hold(
    claims: Seq<OracleClaimView>,
    polys: Map<Seq<char>, Seq<EF>>,
) -> bool {
    forall|i: int| 0 <= i < claims.len() ==> (#[trigger] claims[i]).holds(polys)
}

/// All claims speak of stored polynomials.
pub open spec fn all_stored(
    claims: Seq<OracleClaimView>,
    polys: Map<Seq<char>, Seq<EF>>,
) -> bool {
    forall|i: int| 0 <= i < claims.len() ==> (#[trigger] claims[i]).stored(polys)
}

/// Collects the opening claims of a protocol run.
pub struct ClaimAccumulator {
    pub claims: Vec<OracleClaim>,
}

/// The contents of a list of claims.
pub open spec fn claim_contents(s: Seq<OracleClaim>) -> Seq<OracleClaimView> {
    Seq::new(s.len(), |i: int| s[i].contents())
}

impl ClaimAccumulator {
    pub open spec fn contents(self) -> Seq<OracleClaimView> {
        claim_contents(self.claims@)
    }

    /// No claims.
    pub fn new() -> (r: Self)
        ensures
            r.contents() == Seq::<OracleClaimView>::empty(),
    {
        let r = ClaimAccumulator { claims: Vec::new() };
        assert(r.contents() =~= Seq::<OracleClaimView>::empty());
        r
    }

    /// Records that polynomial `oracle` takes `value` at `point`.
    pub fn open(&mut self, oracle: &str, point: Vec<EF>, value: EF)
        ensures
            final(self).contents() == old(self).contents().push(
                opening(oracle@, point@, value),
            ),
    {
        let ghost before = self.contents();
        self.claims.push(OracleClaim { oracle: oracle.to_owned(), point, value });
        assert(self.contents() =~= before.push(opening(oracle@, point@, value)));
    }
}

/// One committed polynomial.
struct Entry {
    name: String,
    data: ProverData,
    commitment: Commitment,
}

/// The committed polynomials, by name. A later commitment under a name replaces an
/// earlier one.
pub struct CommitSet {
    entries: Vec<Entry>,
}

/// The prover's polynomials of the first `n` entries.
spec fn kept_by(entries: Seq<Entry>, n: nat) -> Map<Seq<char>, Seq<EF>>
    decreases n,
{
    if n == 0 {
        Map::empty()
    } else {
        kept_by(entries, (n - 1) as nat).insert(
            entries[n - 1].name@,
            entries[n - 1].data.0@,
        )
    }
}

/// The committed polynomials of the first `n` entries.
spec fn committed_by(entries: Seq<Entry>, n: nat) -> Map<Seq<char>, Seq<EF>>
    decreases n,
{
    if n == 0 {
        Map::empty()
    } else {
        committed_by(entries, (n - 1) as nat).insert(
            entries[n - 1].name@,
            entries[n - 1].commitment.values(),
        )
    }
}

proof fn lemma_by_prefix(a: Seq<Entry>, b: Seq<Entry>, n: nat)
    requires
        n <= a.len(),
        n <= b.len(),
        forall|i: int| 0 <= i < n ==> a[i] == b[i],
    ensures
        kept_by(a, n) == kept_by(b, n),
        committed_by(a, n) == committed_by(b, n),
    decreases n,
{
    if n > 0 {
        lemma_by_prefix(a, b, (n - 1) as nat);
    }
}

impl CommitSet {
    /// What the prover keeps, by name.
    pub closed spec fn kept(self) -> Map<Seq<char>, Seq<EF>> {
        kept_by(self.entries@, self.entries@.len())
    }

    /// What the commitments commit to, by name.
    pub closed spec fn committed(self) -> Map<Seq<char>, Seq<EF>> {
        committed_by(self.entries@, self.entries@.len())
    }

    /// Nothing committed.
    pub fn new() -> (r: Self)
        ensures
            r.kept() == Map::<Seq<char>, Seq<EF>>::empty(),
            r.committed() == Map::<Seq<char>, Seq<EF>>::empty(),
    {
        CommitSet { entries: Vec::new() }
    }

    /// Commits `poly` under `name`.
    pub fn commit(&mut self, name: &str, poly: Vec<EF>)
        ensures
            final(self).kept() == old(self).kept().insert(name@, poly@),
            final(self).committed() == old(self).committed().insert(name@, poly@),
    {
        let ghost before = self.entries@;
        let (data, commitment) = Pcs::commit(MlPoly(poly));
        self.entries.push(Entry { name: name.to_owned(), data, commitment });
        proof {
            lemma_by_prefix(before, self.entries@, before.len());
        }
    }

    /// Takes over all commitments of `other`, which replace those of the same name.
    pub fn extend(&mut self, other: CommitSet)
        ensures
            final(self).kept() == old(self).kept().union_prefer_right(other.kept()),
            final(self).committed() == old(self).committed().union_prefer_right(
                other.committed(),
            ),
    {
        let ghost before = self.entries@;
        let ghost added = other.entries@;
        let mut rest = other.entries;
        self.entries.append(&mut rest);
        proof {
            assert(self.entries@ =~= before + added);
            lemma_by_append(before, added, added.len());
            lemma_by_prefix(before, self.entries@, before.len());
        }
    }

    /// The commitment under `name`.
    pub fn commitment(&self, name: &str) -> (r: Option<&Commitment>)
        ensures
            r is Some <==> self.committed().contains_key(name@),
            r is Some ==> r->0.values() == self.committed()[name@],
    {
        match self.find(name) {
            Some(i) => Some(&self.entries[i].commitment),
            None => None,
        }
    }

    /// What the prover keeps under `name`.
    pub fn prover_data(&self, name: &str) -> (r: Option<&ProverData>)
        ensures
            r is Some <==> self.kept().contains_key(name@),
            r is Some ==> (r->0).0@ == self.kept()[name@],
    {
        match self.find(name) {
            Some(i) => Some(&self.entries[i].data),
            None => None,
        }
    }

    /// The position of the last entry under `name`.
    fn find(&self, name: &str) -> (r: Option<usize>)
        ensures
            r is Some <==> self.kept().contains_key(name@),
            r is Some <==> self.committed().contains_key(name@),
            r is Some ==> r->0 < self.entries@.len() && self.entries@[r->0 as int].data.0@
                == self.kept()[name@] && self.entries@[r->0 as int].commitment.values()
                == self.committed()[name@],
    {
        let wanted = name.to_owned();
        let mut i: usize = self.entries.len();
        while i > 0
            invariant
                i <= self.entries@.len(),
                wanted@ == name@,
                self.kept().contains_key(name@) <==> kept_by(
                    self.entries@,
                    i as nat,
                ).contains_key(name@),
                self.committed().contains_key(name@) <==> committed_by(
                    self.entries@,
                    i as nat,
                ).contains_key(name@),
                self.kept().contains_key(name@) ==> self.kept()[name@] == kept_by(
                    self.entries@,
                    i as nat,
                )[name@],
                self.committed().contains_key(name@) ==> self.committed()[name@]
                    == committed_by(self.entries@, i as nat)[name@],
            decreases i,
        {
            i -= 1;
            if self.entries[i].name == wanted {
                return Some(i);
            }
        }
        None
    }

    /// The named polynomial at `point`.
    pub fn evaluate(&self, name: &str, point: &[EF]) -> (r: EF)
        requires
            self.kept().contains_key(name@),
            self.kept()[name@].len() == pow2(point@.len()),
        ensures
            r == multilinear::mle(self.kept()[name@], point@),
    {
        let data = self.prover_data(name).unwrap();
        MlPoly(poly::copy_slice(data.0.as_slice())).eval(point)
    }
}

proof fn lemma_by_append(a: Seq<Entry>, b: Seq<Entry>, n: nat)
    requires
        n <= b.len(),
    ensures
        kept_by(a + b, a.len() + n) == kept_by(a, a.len()).union_prefer_right(kept_by(b, n)),
        committed_by(a + b, a.len() + n) == committed_by(a, a.len()).union_prefer_right(
            committed_by(b, n),
        ),
    decreases n,
{
    if n == 0 {
        lemma_by_prefix(a, a + b, a.len());
        assert(kept_by(a, a.len()).union_prefer_right(kept_by(b, 0)) =~= kept_by(a, a.len()));
        assert(committed_by(a, a.len()).union_prefer_right(committed_by(b, 0))
            =~= committed_by(a, a.len()));
    } else {
        lemma_by_append(a, b, (n - 1) as nat);
        assert((a + b)[a.len() + n - 1] == b[n - 1]);
        assert(kept_by(a + b, a.len() + n) =~= kept_by(a, a.len()).union_prefer_right(
            kept_by(b, n),
        ));
        assert(committed_by(a + b, a.len() + n) =~= committed_by(
            a,
            a.len(),
        ).union_prefer_right(committed_by(b, n)));
    }
}

/// Opens all claimed polynomials.
pub fn open_claims(
    set: &CommitSet,
    acc: &ClaimAccumulator,
    oracle: &mut crate::utils::oracle::RandomOracle<EF>,
)
    requires
        all_stored(acc.contents(), set.kept()),
    ensures
        *final(oracle) == *old(oracle),
{
    let mut tasks: Vec<(&ProverData, Vec<EF>)> = Vec::new();
    let mut i: usize = 0;
    while i < acc.claims.len()
        invariant
            i <= acc.claims@.len(),
            all_stored(acc.contents(), set.kept()),
        decreases acc.claims.len() - i,
    {
        let c = &acc.claims[i];
        assert(acc.contents()[i as int].stored(set.kept()));
        tasks.push(
            (set.prover_data(c.oracle.as_str()).unwrap(), poly::copy_slice(c.point.as_slice())),
        );
        i += 1;
    }
    Pcs::batch_prove(tasks.as_slice(), oracle)
}

/// Checks all claims against the commitments.
pub fn check_claims(
    set: &CommitSet,
    acc: &ClaimAccumulator,
    proof: &(),
    oracle: &mut crate::utils::oracle::RandomOracle<EF>,
) -> (r: bool)
    requires
        all_stored(acc.contents(), set.committed()),
    ensures
        r == all_hold(acc.contents(), set.committed()),
        *final(oracle) == *old(oracle),
{
    let mut claims: Vec<(&Commitment, Vec<EF>, EF)> = Vec::new();
    let mut i: usize = 0;
    while i < acc.claims.len()
        invariant
            i <= acc.claims@.len(),
            all_stored(acc.contents(), set.committed()),
            claims@.len() == i,
            forall|k: int|
                0 <= k < i ==> (#[trigger] claims@[k]).0.values()
                    == set.committed()[acc.contents()[k].oracle] && claims@[k].1@
                    == acc.contents()[k].point && claims@[k].2 == acc.contents()[k].value,
        decreases acc.claims.len() - i,
    {
        let c = &acc.claims[i];
        assert(acc.contents()[i as int].stored(set.committed()));
        claims.push(
            (
                set.commitment(c.oracle.as_str()).unwrap(),
                poly::copy_slice(c.point.as_slice()),
                c.value,
            ),
        );
        i += 1;
    }
    proof {
        assert forall|k: int| 0 <= k < claims@.len() implies (#[trigger] claims@[k]).0.values().len()
            == pow2(claims@[k].1@.len()) by {
            assert(acc.contents()[k].stored(set.committed()));
        }
    }
    let r: bool = Pcs::batch_verify(claims.as_slice(), proof, oracle);
    proof {
        if r {
            assert forall|k: int| 0 <= k < acc.contents().len() implies (#[trigger] acc.contents()[k]).holds(
                set.committed(),
            ) by {
                assert(claims@[k].2 == multilinear::mle(claims@[k].0.values(), claims@[k].1@));
            }
        } else {
            if all_hold(acc.contents(), set.committed()) {
                assert forall|k: int| 0 <= k < claims@.len() implies (#[trigger] claims@[k]).2
                    == multilinear::mle(claims@[k].0.values(), claims@[k].1@) by {
                    assert(acc.contents()[k].holds(set.committed()));
                }
            }
        }
    }
    r
}

/// The entry of a stacked polynomial at position `k`: instance `k / elem_len`,
/// element `k % elem_len`, with zeros as padding.
pub open spec fn stacked_at(instances: Seq<Seq<EF>>, elem_len: nat, k: int) -> EF {
    let (i, e) = (k / elem_len as int, k % elem_len as int);
    if i < instances.len() && e < instances[i].len() {
        instances[i][e]
    } else {
        EF::zero()
    }
}

/// All instances in one polynomial, the instance count padded to a power of two.
pub open spec fn stacked(instances: Seq<Seq<EF>>, elem_len: nat) -> Seq<EF> {
    Seq::new(
        ceil_pow(instances.len() as int) * elem_len,
        |k: int| stacked_at(instances, elem_len, k),
    )
}

/// Stacks instances into one polynomial. Each is padded with zeros to `elem_len`,
/// a power of two, and their number to a power of two.
pub fn stack_instances(instances: &[Vec<EF>], elem_len: usize) -> (r: Vec<EF>)
    requires
        poly::is_power_of_two(elem_len as int),
        forall|i: int|
            0 <= i < instances@.len() ==> (#[trigger] instances@[i])@.len() <= elem_len,
        ceil_pow(instances@.len() as int) * elem_len <= usize::MAX,
    ensures
        r@ == stacked(crate::views::nested(instances@), elem_len as nat),
{
    let ghost views = crate::views::nested(instances@);
    proof {
        let k = choose|k: nat| elem_len as int == #[trigger] pow2(k);
        multilinear::lemma_pow2_mono(0, k);
        lemma_ceil_pow(instances@.len() as int);
        let c = ceil_pow(instances@.len() as int);
        assert(c <= c * elem_len) by (nonlinear_arith)
            requires
                elem_len > 0,
        ;
    }
    let k: usize = pow_ceil(instances.len());
    let mut out: Vec<EF> = Vec::new();
    let mut i: usize = 0;
    while i < k
        invariant
            i <= k,
            elem_len > 0,
            k == ceil_pow(instances@.len() as int),
            views == crate::views::nested(instances@),
            forall|i: int|
                0 <= i < instances@.len() ==> (#[trigger] instances@[i])@.len() <= elem_len,
            out@.len() == i * elem_len,
            forall|j: int|
                0 <= j < out@.len() ==> #[trigger] out@[j] == stacked_at(
                    views,
                    elem_len as nat,
                    j,
                ),
        decreases k - i,
    {
        let mut e: usize = 0;
        while e < elem_len
            invariant
                i < k,
                e <= elem_len,
                views == crate::views::nested(instances@),
                forall|i: int|
                    0 <= i < instances@.len() ==> (#[trigger] instances@[i])@.len() <= elem_len,
                out@.len() == i * elem_len + e,
                forall|j: int|
                    0 <= j < out@.len() ==> #[trigger] out@[j] == stacked_at(
                        views,
                        elem_len as nat,
                        j,
                    ),
            decreases elem_len - e,
        {
            proof {
                vstd::arithmetic::div_mod::lemma_fundamental_div_mod_converse(
                    i * elem_len + e,
                    elem_len as int,
                    i as int,
                    e as int,
                );
            }
            let mut v = EF::new_zero();
            if i < instances.len() {
                assert(instances@[i as int].len() == instances@[i as int]@.len());
                if e < instances[i].len() {
                    v = instances[i][e];
                }
            }
            out.push(v);
            e += 1;
        }
        proof {
            assert((i + 1) * elem_len == i * elem_len + elem_len) by (nonlinear_arith);
        }
        i += 1;
    }
    assert(out@ =~= stacked(views, elem_len as nat));
    out
}

/// The point that opens instance `inst` of a stacked polynomial: the element point
/// followed by the instance's bits.
pub fn instance_slice_point(elem_point: &[EF], inst: usize, inst_vars: usize) -> (r: Vec<EF>)
    ensures
        r@ == elem_point@ + corner(inst as nat, inst_vars as nat),
{
    let mut p = poly::copy_slice(elem_point);
    let ghost goal = p@ + corner(inst as nat, inst_vars as nat);
    let mut rest: usize = inst;
    let mut i: usize = 0;
    while i < inst_vars
        invariant
            i <= inst_vars,
            p@ + corner(rest as nat, (inst_vars - i) as nat) == goal,
        decreases inst_vars - i,
    {
        let ghost seen = p@;
        let ghost n = (inst_vars - i) as nat;
        proof {
            lemma_corner_step(rest as nat, n);
        }
        p.push(
            if rest % 2 == 1 {
                EF::new_one()
            } else {
                EF::new_zero()
            },
        );
        assert(p@ + corner(rest as nat / 2, (n - 1) as nat) =~= seen + corner(rest as nat, n));
        rest = rest / 2;
        i += 1;
    }
    proof {
        lemma_index_bits(rest as nat, 0);
        assert(p@ + corner(rest as nat, 0) =~= p@);
    }
    p
}

/// The weight of vertex `idx` in the equality polynomial of `point`. Only the
/// lowest `point.len()` bits of `idx` count.
pub fn eq_at_index(point: &[EF], idx: usize) -> (r: EF)
    ensures
        r == multilinear::eq_table(point@)[(idx as nat % pow2(point@.len())) as int],
        r.valid(),
{
    let mut acc = EF::new_one();
    let one = EF::new_one();
    let mut rest: usize = idx;
    let mut i: usize = 0;
    let ghost n = point@.len();
    let ghost goal = multilinear::eq_table(point@)[(idx as nat % pow2(n)) as int];
    proof {
        assert(point@.skip(0) =~= point@);
        lemma_weight_valid(point@, idx as nat);
        algebra::one_mul(goal);
    }
    while i < point.len()
        invariant
            i <= point.len(),
            n == point@.len(),
            one == EF::one(),
            acc.valid(),
            acc * multilinear::eq_table(point@.skip(i as int))[(rest as nat % pow2(
                (n - i) as nat,
            )) as int] == goal,
        decreases point.len() - i,
    {
        let x = point[i];
        let f: EF = if rest % 2 == 1 {
            x
        } else {
            one.sub(x)
        };
        proof {
            let tail = point@.skip(i as int);
            assert(tail.drop_first() =~= point@.skip(i + 1));
            lemma_weight_step(tail, rest as nat);
            algebra::mul_assoc(
                acc,
                f,
                multilinear::eq_table(tail.drop_first())[((rest as nat / 2) % pow2(
                    (n - i - 1) as nat,
                )) as int],
            );
        }
        acc = acc.mul(f);
        rest = rest / 2;
        i += 1;
    }
    proof {
        multilinear::lemma_pow2_zero();
        algebra::one_mul(acc);
    }
    acc
}

proof fn lemma_weight_step(point: Seq<EF>, idx: nat)
    requires
        point.len() > 0,
    ensures
        multilinear::eq_table(point)[(idx % pow2(point.len())) as int] == (if idx % 2 == 1 {
            point[0]
        } else {
            EF::one() - point[0]
        }) * multilinear::eq_table(point.drop_first())[((idx / 2) % pow2(
            (point.len() - 1) as nat,
        )) as int],
{
    let n = point.len();
    let m = pow2((n - 1) as nat);
    multilinear::lemma_pow2_step(n);
    vstd::arithmetic::div_mod::lemma_mod_breakdown(idx as int, 2, m as int);
    multilinear::lemma_eq_table_len(point);
    multilinear::lemma_eq_table_len(point.drop_first());
    let k = (idx % pow2(n)) as int;
    assert(k == 2 * ((idx / 2) % m) + idx % 2);
    vstd::arithmetic::div_mod::lemma_mod_bound(idx as int, pow2(n) as int);
}

proof fn lemma_weight_valid(point: Seq<EF>, idx: nat)
    ensures
        (idx % pow2(point.len())) < multilinear::eq_table(point).len(),
        multilinear::eq_table(point)[(idx % pow2(point.len())) as int].valid(),
{
    multilinear::lemma_eq_table_valid(point);
    multilinear::lemma_eq_table_len(point);
    multilinear::lemma_pow2_mono(0, point.len());
    vstd::arithmetic::div_mod::lemma_mod_bound(idx as int, pow2(point.len()) as int);
}

/// Opening a stacked polynomial at an element point and an instance's bits opens
/// that instance's block at the element point.
pub proof fn law_instance_slice(s: Seq<EF>, p: Seq<EF>, inst: nat, inst_vars: nat)
    requires
        s.len() == pow2(p.len() + inst_vars),
        algebra::all_valid(s),
        inst < pow2(inst_vars),
    ensures
        0 <= inst * pow2(p.len()),
        (inst + 1) * pow2(p.len()) <= s.len(),
        multilinear::mle(s, p + corner(inst, inst_vars)) == multilinear::mle(
            s.subrange((inst * pow2(p.len())) as int, ((inst + 1) * pow2(p.len())) as int),
            p,
        ),
{
    let bits = index_bits(inst, inst_vars);
    let n = p.len() + inst_vars;
    lemma_index_bits(inst, inst_vars);
    vstd::arithmetic::div_mod::lemma_small_mod(inst, pow2(inst_vars));
    multilinear::lemma_fold_all_concat(s, p, corner(inst, inst_vars));
    multilinear::lemma_fold_all_len(s, p, n);
    multilinear::lemma_fold_all_valid(s, p);
    multilinear::lemma_mle_vertex(multilinear::fold_all(s, p), bits, inst as int);
    multilinear::lemma_fold_block(s, p, n, inst as int);
}

/// A stacked polynomial is the combination of its blocks with the equality weights
/// of the instance point.
pub proof fn law_instance_combination(s: Seq<EF>, p: Seq<EF>, q: Seq<EF>)
    requires
        s.len() == pow2(p.len() + q.len()),
        algebra::all_valid(s),
    ensures
        multilinear::mle(s, p + q) == algebra::sum(
            pow2(q.len()),
            |j: int| block_value(s, p, j) * multilinear::eq_table(q)[j],
        ),
{
    let n = p.len() + q.len();
    let folded = multilinear::fold_all(s, p);
    multilinear::lemma_fold_all_concat(s, p, q);
    multilinear::lemma_fold_all_len(s, p, n);
    multilinear::lemma_fold_all_valid(s, p);
    multilinear::lemma_mle_sum(folded, q);
    let f = |j: int| folded[j] * multilinear::eq_table(q)[j];
    let g = |j: int| block_value(s, p, j) * multilinear::eq_table(q)[j];
    assert forall|j: int| 0 <= j < pow2(q.len()) implies #[trigger] f(j) == g(j) by {
        multilinear::lemma_fold_block(s, p, n, j);
    }
    algebra::sum_ext(pow2(q.len()), f, g);
}

/// The value at `p` of block `j` of a stacked polynomial.
pub open spec fn block_value(s: Seq<EF>, p: Seq<EF>, j: int) -> EF {
    multilinear::mle(s.subrange(j * pow2(p.len()), (j + 1) * pow2(p.len())), p)
}

/// The block of an instance in a stacked polynomial is the instance, padded with
/// zeros.
pub proof fn law_stacked_block(instances: Seq<Seq<EF>>, elem_len: nat, i: int, e: int)
    requires
        0 <= i < instances.len(),
        0 <= e < elem_len,
    ensures
        0 <= i * elem_len + e < stacked(instances, elem_len).len(),
        stacked(instances, elem_len)[i * elem_len + e] == (if e < instances[i].len() {
            instances[i][e]
        } else {
            EF::zero()
        }),
{
    lemma_ceil_pow(instances.len() as int);
    let c = ceil_pow(instances.len() as int);
    assert(0 <= i * elem_len + e < c * elem_len) by (nonlinear_arith)
        requires
            0 <= i < c,
            0 <= e < elem_len,
    ;
    vstd::arithmetic::div_mod::lemma_fundamental_div_mod_converse(
        i * elem_len + e,
        elem_len as int,
        i,
        e,
    );
}

/// The claim that a source leaves for the operand's own value is true.
pub proof fn law_source_claim(
    src: SourceView,
    polys: Map<Seq<char>, Seq<EF>>,
    point: Seq<EF>,
)
    requires
        src.stored(polys),
        algebra::all_valid(polys[src.oracle]),
    ensures
        src.claim(point, src.value(polys, point)).holds(polys),
        src.claim(point, src.value(polys, point)).stored(polys),
{
    let v = multilinear::mle(polys[src.oracle], src.target(point));
    lemma_mle_valid(polys[src.oracle], src.target(point));
    algebra::sub_add(v, src.bias_at(point));
}

/// A multilinear polynomial with canonical values takes canonical values.
pub proof fn lemma_mle_valid(s: Seq<EF>, point: Seq<EF>)
    requires
        s.len() == pow2(point.len()),
        algebra::all_valid(s),
    ensures
        multilinear::mle(s, point).valid(),
{
    multilinear::lemma_fold_all_valid(s, point);
    multilinear::lemma_fold_all_len(s, point, point.len());
    multilinear::lemma_pow2_zero();
}

/// Two lists of true claims joined are one.
pub proof fn lemma_all_hold_join(
    a: Seq<OracleClaimView>,
    b: Seq<OracleClaimView>,
    polys: Map<Seq<char>, Seq<EF>>,
)
    requires
        all_hold(a, polys),
        all_hold(b, polys),
    ensures
        all_hold(a + b, polys),
{
    assert forall|i: int| 0 <= i < (a + b).len() implies (#[trigger] (a + b)[i]).holds(polys) by {
        if i < a.len() {
            assert((a + b)[i] == a[i]);
        } else {
            assert((a + b)[i] == b[i - a.len()]);
        }
    }
}

/// A claim that a source leaves is true only of the operand's own value.
pub proof fn law_source_bound(
    src: SourceView,
    polys: Map<Seq<char>, Seq<EF>>,
    point: Seq<EF>,
    v: EF,
)
    requires
        v.valid(),
        src.claim(point, v).holds(polys),
    ensures
        v == multilinear::mle(polys[src.oracle], src.target(point)) + src.bias_at(point),
{
    algebra::sub_add(v, src.bias_at(point));
}

/// Claims that hold are true of the entries: every claimed value is the sum of the entries
/// of its polynomial, each times its weight at the point, so two claims about one
/// polynomial at one point claim one value.
pub proof fn law_claims_true(
    claims: Seq<OracleClaimView>,
    polys: Map<Seq<char>, Seq<EF>>,
    i: int,
    j: int,
)
    requires
        all_hold(claims, polys),
        0 <= i < claims.len(),
        0 <= j < claims.len(),
        claims[i].stored(polys),
        algebra::all_valid(polys[claims[i].oracle]),
    ensures
        ({
            let s = polys[claims[i].oracle];
            claims[i].value == algebra::sum(
                s.len(),
                |k: int| s[k] * multilinear::eq_table(claims[i].point)[k],
            )
        }),
        claims[i].oracle == claims[j].oracle && claims[i].point == claims[j].point
            ==> claims[i].value == claims[j].value,
{
    assert(claims[i].holds(polys) && claims[j].holds(polys));
    multilinear::lemma_mle_sum(polys[claims[i].oracle], claims[i].point);
}

} // verus!
