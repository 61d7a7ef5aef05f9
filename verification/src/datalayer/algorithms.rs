use tlsh2::TlshDefault;
use vstd::prelude::*;

verus! {

/// A distance between identifiers of type `ID`; smaller is closer.
///
/// What an algorithm measures is fixed by its type: two values of one type
/// measure alike.
pub trait DistanceAlgorithm<ID>: Sized {
    /// Identifiers that can be measured.
    spec fn admits(id: ID) -> bool;

    /// The distance from `a` to `b`. Nothing says that it is symmetric.
    spec fn distance(a: ID, b: ID) -> u32;

    fn calculate_distance(&self, a: &ID, b: &ID) -> (d: u32)
        requires
            Self::admits(*a),
            Self::admits(*b),
        ensures
            d == Self::distance(*a, *b),
    ;
}

/// Every identifier of `features` can be measured by `D`.
pub open spec fn all_admitted<D: DistanceAlgorithm<ID>, ID>(features: Seq<ID>) -> bool {
    forall|i: int| 0 <= i < features.len() ==> D::admits(#[trigger] features[i])
}

// ---------------------------------------------------------------------------
// Plain numbers
// ---------------------------------------------------------------------------

/// Absolute difference of two numbers.
pub struct NormalDistance;

impl Default for NormalDistance {
    fn default() -> (d: Self)
        ensures
            d == NormalDistance,
    {
        NormalDistance
    }
}

/// The absolute difference of `a` and `b`.
pub open spec fn gap(a: u32, b: u32) -> u32 {
    if a >= b {
        (a - b) as u32
    } else {
        (b - a) as u32
    }
}

impl DistanceAlgorithm<u32> for NormalDistance {
    open spec fn admits(id: u32) -> bool {
        true
    }

    open spec fn distance(a: u32, b: u32) -> u32 {
        gap(a, b)
    }

    fn calculate_distance(&self, a: &u32, b: &u32) -> (d: u32) {
        if *a >= *b {
            *a - *b
        } else {
            *b - *a
        }
    }
}

// ---------------------------------------------------------------------------
// TLSH digests
// ---------------------------------------------------------------------------

/// A hexadecimal digit, in either case.
pub open spec fn is_hex_digit(c: char) -> bool {
    ||| '0' <= c <= '9'
    ||| 'a' <= c <= 'f'
    ||| 'A' <= c <= 'F'
}

/// Text of a TLSH digest with 128 buckets and a one-byte checksum: the version
/// prefix `T1` and seventy hexadecimal digits.
pub open spec fn is_tlsh_text(s: Seq<char>) -> bool {
    &&& s.len() == 72
    &&& s[0] == 'T'
    &&& s[1] == '1'
    &&& forall|i: int| 2 <= i < 72 ==> is_hex_digit(#[trigger] s[i])
}

/// The byte of an ASCII character with letters raised to upper case.
pub open spec fn upper_byte(c: char) -> u8 {
    if 'a' <= c <= 'z' {
        (c as u8 - 32) as u8
    } else {
        c as u8
    }
}

/// The canonical bytes of a digest: its text with upper-case digits.
pub open spec fn tlsh_key(s: Seq<char>) -> Seq<u8> {
    Seq::new(s.len(), |i: int| upper_byte(s[i]))
}

/// The difference score that `tlsh2` gives to the digests written `a` and `b`.
pub uninterp spec fn tlsh_difference(a: Seq<char>, b: Seq<char>, len_diff: bool) -> i32;

/// Whether `TlshDefault::from_str` (`tlsh2`) reads `text`. Claimed: it does
/// exactly for the prefix `T1` followed by seventy hexadecimal digits.
#[verifier::external_body]
fn tlsh_reads(text: &str) -> (r: bool)
    ensures
        r == is_tlsh_text(text@),
{
    text.parse::<TlshDefault>().is_ok()
}

/// `TlshDefault::hash` (`tlsh2`) on the digest written `text`. Claimed: it
/// writes the digest back with upper-case digits.
#[verifier::external_body]
fn tlsh_hash(text: &str) -> (key: Vec<u8>)
    requires
        is_tlsh_text(text@),
    ensures
        key@ == tlsh_key(text@),
{
    text.parse::<TlshDefault>().unwrap().hash().to_vec()
}

/// `TlshDefault::diff` (`tlsh2`) between the digests written `a` and `b`.
/// Claimed: the score depends on the two texts and the flag alone, and is not
/// negative.
#[verifier::external_body]
fn tlsh_diff(a: &str, b: &str, len_diff: bool) -> (d: i32)
    requires
        is_tlsh_text(a@),
        is_tlsh_text(b@),
    ensures
        d == tlsh_difference(a@, b@, len_diff),
        d >= 0,
{
    let left: TlshDefault = a.parse().unwrap();
    let right: TlshDefault = b.parse().unwrap();
    left.diff(&right, len_diff)
}

/// A TLSH digest, by its text.
#[derive(Debug)]
pub struct TlshHash(pub String);

impl Clone for TlshHash {
    fn clone(&self) -> (r: Self)
        ensures
            r == *self,
    {
        TlshHash(self.0.clone())
    }
}

impl TlshHash {
    /// The text is that of a digest.
    pub open spec fn wf(&self) -> bool {
        is_tlsh_text(self.0@)
    }

    /// Reads a digest; `None` for text that is not one.
    pub fn parse(text: &str) -> (r: Option<TlshHash>)
        ensures
            r is Some <==> is_tlsh_text(text@),
            r matches Some(h) ==> h.0@ == text@,
    {
        if tlsh_reads(text) {
            Some(TlshHash(text.to_owned()))
        } else {
            None
        }
    }

    /// The canonical bytes of the digest, equal for two texts that differ in
    /// the case of their digits only.
    pub fn hash(&self) -> (key: Vec<u8>)
        requires
            self.wf(),
        ensures
            key@ == tlsh_key(self.0@),
    {
        tlsh_hash(self.0.as_str())
    }
}

/// Difference of two TLSH digests, file length included.
pub struct TlshDistance;

impl Default for TlshDistance {
    fn default() -> (d: Self)
        ensures
            d == TlshDistance,
    {
        TlshDistance
    }
}

impl Clone for TlshDistance {
    fn clone(&self) -> (d: Self)
        ensures
            d == *self,
    {
        TlshDistance
    }
}

impl DistanceAlgorithm<TlshHash> for TlshDistance {
    open spec fn admits(id: TlshHash) -> bool {
        id.wf()
    }

    open spec fn distance(a: TlshHash, b: TlshHash) -> u32 {
        tlsh_difference(a.0@, b.0@, true) as u32
    }

    fn calculate_distance(&self, a: &TlshHash, b: &TlshHash) -> (d: u32) {
        let diff: i32 = tlsh_diff(a.0.as_str(), b.0.as_str(), true);
        diff as u32
    }
}

// ---------------------------------------------------------------------------
// ssdeep signatures
// ---------------------------------------------------------------------------

/// An ssdeep signature, by its text.
#[derive(Debug, PartialEq, Eq, Hash)]
pub struct SsdeepHash(pub String);

impl Clone for SsdeepHash {
    fn clone(&self) -> (r: Self)
        ensures
            r == *self,
    {
        SsdeepHash(self.0.clone())
    }
}

impl SsdeepHash {
    /// Text that can be handed to a comparison: it holds no NUL character.
    pub open spec fn wf(&self) -> bool {
        !self.0@.contains('\0')
    }

    /// Whether the signature can be handed to a comparison at all. Comparing
    /// text that holds a NUL character does not fail, it aborts.
    pub fn comparable(&self) -> (r: bool)
        ensures
            r == self.wf(),
    {
        for c in it: self.0.as_str().chars()
            invariant
                it.seq() == self.0@,
                forall|i: int| 0 <= i < it.index() ==> self.0@[i] != '\0',
        {
            if c == '\0' {
                assert(self.0@[it.index()] == '\0');
                return false;
            }
        }
        true
    }

    /// Whether the text is a signature: it can be compared, and comparing it
    /// with itself gave a score (`self_score`).
    pub fn is_valid(&self, self_score: Option<u8>) -> (r: bool)
        ensures
            r == (self.wf() && self_score is Some),
    {
        self.comparable() && self_score.is_some()
    }
}

/// Distance of two ssdeep signatures out of their match score.
pub struct SsdeepDistance;

impl Default for SsdeepDistance {
    fn default() -> (d: Self)
        ensures
            d == SsdeepDistance,
    {
        SsdeepDistance
    }
}

impl Clone for SsdeepDistance {
    fn clone(&self) -> (d: Self)
        ensures
            d == *self,
    {
        SsdeepDistance
    }
}

/// The distance that belongs to a match score: a hundred less the score, where
/// a pair without a score counts as no match.
pub open spec fn score_gap(score: Option<u8>) -> u32 {
    match score {
        Some(s) => (100 - s) as u32,
        None => 100,
    }
}

impl SsdeepDistance {
    /// Turns a match score of 0 to 100 into a distance where smaller is closer.
    pub fn from_score(&self, score: Option<u8>) -> (d: u32)
        requires
            score is Some ==> score->0 <= 100,
        ensures
            d == score_gap(score),
            d <= 100,
    {
        match score {
            Some(s) => 100 - s as u32,
            None => 100,
        }
    }
}

// ---------------------------------------------------------------------------
// Medoids
// ---------------------------------------------------------------------------

/// Identifiers of which one that is central under the distance `D` can be picked.
pub trait Medoid<D: DistanceAlgorithm<Self>>: Sized + Clone {
    /// Identifiers that the choice can be made among.
    spec fn ranks(id: Self) -> bool;

    /// The one that is picked.
    spec fn center(features: Seq<Self>) -> Self;

    /// Picks a central element of `features`.
    fn medoid(features: &[Self]) -> (m: Self)
        requires
            features@.len() > 0,
            forall|i: int| 0 <= i < features@.len() ==> Self::ranks(#[trigger] features@[i]),
        ensures
            m == Self::center(features@),
            features@.contains(m),
    ;
}

/// Distance between two sampled positions: at most 511 of `n` are looked at.
pub open spec fn sample_step(n: int) -> int {
    if n / 256 >= 1 {
        n / 256
    } else {
        1
    }
}

/// Number of sampled positions: the multiples of the step below `n`.
pub open spec fn sample_count(n: int) -> int {
    if n <= 0 {
        0
    } else {
        (n - 1) / sample_step(n) + 1
    }
}

/// The sampled elements of `features`.
pub open spec fn sample<ID>(features: Seq<ID>) -> Seq<ID> {
    let n = features.len() as int;
    Seq::new(sample_count(n) as nat, |i: int| features[i * sample_step(n)])
}

/// Sum of the distances from `x` to the elements of `to`.
pub open spec fn spread<D: DistanceAlgorithm<ID>, ID>(x: ID, to: Seq<ID>) -> nat
    decreases to.len(),
{
    if to.len() == 0 {
        0
    } else {
        spread::<D, ID>(x, to.drop_last()) + D::distance(x, to.last()) as nat
    }
}

/// `i` is the first of the positions of `s` whose element has the least sum of
/// distances to all of `s`.
pub open spec fn first_central<D: DistanceAlgorithm<ID>, ID>(s: Seq<ID>, i: int) -> bool {
    &&& 0 <= i < s.len()
    &&& forall|j: int|
        0 <= j < s.len() ==> spread::<D, ID>(s[i], s) <= #[trigger] spread::<D, ID>(s[j], s)
    &&& forall|j: int|
        0 <= j < i ==> spread::<D, ID>(s[i], s) < #[trigger] spread::<D, ID>(s[j], s)
}

/// The approximate medoid of `features`: of a regular sample the first element
/// with the least sum of distances to the sample.
pub open spec fn sampled_medoid<D: DistanceAlgorithm<ID>, ID>(features: Seq<ID>) -> ID {
    let s = sample(features);
    s[choose|i: int| first_central::<D, ID>(s, i)]
}

proof fn lemma_sample_bounds(n: int)
    requires
        n > 0,
    ensures
        1 <= sample_count(n) <= 511,
        1 <= sample_step(n) <= n,
        forall|i: int| 0 <= i < sample_count(n) ==> 0 <= #[trigger] (i * sample_step(n)) < n,
{
    let step = sample_step(n);
    let q = (n - 1) / step;
    assert(n - 1 < 256 * step + 256) by {
        if n / 256 >= 1 {
            assert(n < 256 * (n / 256) + 256);
        }
    }
    assert(q <= 510) by (nonlinear_arith)
        requires
            q == (n - 1) / step,
            step >= 1,
            n - 1 < 256 * step + 255 || (step == 1 && n - 1 <= 510),
    ;
    assert forall|i: int| 0 <= i < sample_count(n) implies 0 <= #[trigger] (i * step) < n by {
        assert(0 <= i * step <= n - 1) by (nonlinear_arith)
            requires
                0 <= i <= (n - 1) / step,
                step >= 1,
                n >= 1,
        ;
    }
}

proof fn lemma_spread_bound<D: DistanceAlgorithm<ID>, ID>(x: ID, to: Seq<ID>)
    ensures
        spread::<D, ID>(x, to) <= to.len() * 0xffff_ffff,
    decreases to.len(),
{
    if to.len() > 0 {
        lemma_spread_bound::<D, ID>(x, to.drop_last());
    }
}

/// Two positions that are both first are the same.
proof fn lemma_first_central_unique<D: DistanceAlgorithm<ID>, ID>(s: Seq<ID>, i: int, j: int)
    requires
        first_central::<D, ID>(s, i),
        first_central::<D, ID>(s, j),
    ensures
        i == j,
{
    assert(spread::<D, ID>(s[i], s) <= spread::<D, ID>(s[j], s));
    assert(spread::<D, ID>(s[j], s) <= spread::<D, ID>(s[i], s));
}

/// Of the first `k` positions, the first with the least sum of distances.
proof fn lemma_first_of<D: DistanceAlgorithm<ID>, ID>(s: Seq<ID>, k: int) -> (i: int)
    requires
        0 < k <= s.len(),
    ensures
        0 <= i < k,
        forall|j: int|
            0 <= j < k ==> spread::<D, ID>(s[i], s) <= #[trigger] spread::<D, ID>(s[j], s),
        forall|j: int|
            0 <= j < i ==> spread::<D, ID>(s[i], s) < #[trigger] spread::<D, ID>(s[j], s),
    decreases k,
{
    if k == 1 {
        0
    } else {
        let i = lemma_first_of::<D, ID>(s, k - 1);
        if spread::<D, ID>(s[k - 1], s) < spread::<D, ID>(s[i], s) {
            k - 1
        } else {
            i
        }
    }
}

/// A spread is a sum.
proof fn lemma_spread_sum<D: DistanceAlgorithm<ID>, ID>(x: ID, to: Seq<ID>)
    ensures
        spread::<D, ID>(x, to) == Seq::new(
            to.len(),
            |k: int| D::distance(x, to[k]) as int,
        ).fold_left(0int, |a: int, b: int| a + b),
    decreases to.len(),
{
    let all = Seq::new(to.len(), |k: int| D::distance(x, to[k]) as int);
    if to.len() > 0 {
        let shorter = to.drop_last();
        lemma_spread_sum::<D, ID>(x, shorter);
        assert(all.drop_last() =~= Seq::new(
            shorter.len(),
            |k: int| D::distance(x, shorter[k]) as int,
        ));
    }
}

/// The medoid is one of the features, at a multiple of `step`, and no other there has
/// a lesser sum of distances to all that are at such places. Up to 511 features these
/// are all places; above, the step is a 256th of their number, rounded down. Of
/// several with the least sum it is the first.
pub proof fn lemma_medoid_is_central<D: DistanceAlgorithm<ID>, ID>(
    features: Seq<ID>,
    step: int,
    sum: spec_fn(int) -> int,
) -> (i: int)
    requires
        features.len() > 0,
        step == if features.len() < 512 {
            1
        } else {
            features.len() as int / 256
        },
        forall|x: int|
            #[trigger] sum(x) == Seq::new(
                ((features.len() - 1) / step + 1) as nat,
                |k: int| D::distance(features[x], features[k * step]) as int,
            ).fold_left(0int, |a: int, b: int| a + b),
    ensures
        0 <= i,
        0 <= i * step < features.len(),
        sampled_medoid::<D, ID>(features) == features[i * step],
        forall|j: int|
            0 <= j && 0 <= #[trigger] (j * step) < features.len() ==> sum(i * step) <= sum(
                j * step,
            ),
        forall|j: int| 0 <= j < i ==> sum(i * step) < sum(#[trigger] (j * step)),
{
    let n = features.len() as int;
    let s = sample(features);
    lemma_sample_bounds(n);
    assert(step == sample_step(n));
    let first = lemma_first_of::<D, ID>(s, s.len() as int);
    assert(first_central::<D, ID>(s, first));
    let i = choose|i: int| first_central::<D, ID>(s, i);
    assert forall|j: int| 0 <= j < s.len() implies #[trigger] spread::<D, ID>(s[j], s) == sum(
        j * step,
    ) by {
        lemma_spread_sum::<D, ID>(s[j], s);
        assert(s[j] == features[j * step]);
        assert(Seq::new(s.len(), |k: int| D::distance(s[j], s[k]) as int) =~= Seq::new(
            ((n - 1) / step + 1) as nat,
            |k: int| D::distance(features[j * step], features[k * step]) as int,
        ));
    }
    assert(s[i] == features[i * step]);
    assert(0 <= i * sample_step(n) < n);
    assert(spread::<D, ID>(s[i], s) == sum(i * step));
    assert forall|j: int| 0 <= j && 0 <= #[trigger] (j * step) < n implies sum(i * step) <= sum(
        j * step,
    ) by {
        assert(j <= (n - 1) / step) by (nonlinear_arith)
            requires
                0 <= j,
                step >= 1,
                j * step <= n - 1,
        ;
        assert(spread::<D, ID>(s[i], s) <= spread::<D, ID>(s[j], s));
    }
    assert forall|j: int| 0 <= j < i implies sum(i * step) < sum(#[trigger] (j * step)) by {
        assert(spread::<D, ID>(s[i], s) < spread::<D, ID>(s[j], s));
    }
    i
}

/// Index of the approximate medoid of `features` under `distance`.
pub fn medoid_index<D: DistanceAlgorithm<ID>, ID>(features: &[ID], distance: &D) -> (at: usize)
    requires
        features@.len() > 0,
        all_admitted::<D, ID>(features@),
    ensures
        at < features@.len(),
        features@[at as int] == sampled_medoid::<D, ID>(features@),
        exists|i: int|
            first_central::<D, ID>(sample(features@), i) && at == i * sample_step(
                features@.len() as int,
            ),
{
    let n: usize = features.len();
    let step: usize = if n / 256 >= 1 {
        n / 256
    } else {
        1
    };
    let count: usize = (n - 1) / step + 1;
    let ghost s = sample(features@);
    proof {
        lemma_sample_bounds(n as int);
        assert(step == sample_step(n as int));
    }
    let mut best: usize = 0;
    let mut best_sum: u64 = 0;
    let mut i: usize = 0;
    while i < count
        invariant
            n == features@.len(),
            n > 0,
            step == sample_step(n as int),
            count == sample_count(n as int),
            count <= 511,
            i <= count,
            s == sample(features@),
            all_admitted::<D, ID>(features@),
            forall|k: int| 0 <= k < count ==> 0 <= #[trigger] (k * sample_step(n as int)) < n,
            i > 0 ==> best < i && best_sum == spread::<D, ID>(s[best as int], s),
            forall|k: int|
                0 <= k < i ==> best_sum <= #[trigger] spread::<D, ID>(s[k], s),
            forall|k: int|
                0 <= k < best ==> best_sum < #[trigger] spread::<D, ID>(s[k], s),
        decreases count - i,
    {
        assert(0 <= i * sample_step(n as int) < n);
        let at: usize = i * step;
        let mut sum: u64 = 0;
        let mut j: usize = 0;
        assert(s.take(0) =~= Seq::<ID>::empty());
        while j < count
            invariant
                n == features@.len(),
                step == sample_step(n as int),
                count == sample_count(n as int),
                count <= 511,
                j <= count,
                at < n,
                at == i * step,
                0 <= i < count,
                s == sample(features@),
                all_admitted::<D, ID>(features@),
                forall|k: int| 0 <= k < count ==> 0 <= #[trigger] (k * sample_step(n as int)) < n,
                sum == spread::<D, ID>(s[i as int], s.take(j as int)),
            decreases count - j,
        {
            assert(0 <= j * sample_step(n as int) < n);
            let other: usize = j * step;
            let d: u32 = distance.calculate_distance(&features[at], &features[other]);
            proof {
                lemma_spread_bound::<D, ID>(s[i as int], s.take(j as int));
                assert(s.take(j + 1).drop_last() =~= s.take(j as int));
                assert(s.take(j + 1).last() == s[j as int]);
                assert(s[i as int] == features@[at as int]);
            }
            sum = sum + d as u64;
            j = j + 1;
        }
        assert(s.take(count as int) =~= s);
        if i == 0 || sum < best_sum {
            best = i;
            best_sum = sum;
        }
        i = i + 1;
    }
    proof {
        assert(first_central::<D, ID>(s, best as int));
        let c = choose|c: int| first_central::<D, ID>(s, c);
        lemma_first_central_unique::<D, ID>(s, best as int, c);
        assert(0 <= best * sample_step(n as int) < n);
    }
    best * step
}

impl Medoid<TlshDistance> for TlshHash {
    open spec fn ranks(id: TlshHash) -> bool {
        id.wf()
    }

    open spec fn center(features: Seq<TlshHash>) -> TlshHash {
        sampled_medoid::<TlshDistance, TlshHash>(features)
    }

    fn medoid(features: &[TlshHash]) -> (m: TlshHash) {
        let at: usize = medoid_index::<TlshDistance, TlshHash>(features, &TlshDistance);
        features[at].clone()
    }
}

impl Medoid<NormalDistance> for u32 {
    open spec fn ranks(id: u32) -> bool {
        true
    }

    open spec fn center(features: Seq<u32>) -> u32 {
        sampled_medoid::<NormalDistance, u32>(features)
    }

    fn medoid(features: &[u32]) -> (m: u32) {
        let at: usize = medoid_index::<NormalDistance, u32>(features, &NormalDistance);
        features[at]
    }
}

impl<D: DistanceAlgorithm<SsdeepHash> + Default> Medoid<D> for SsdeepHash {
    open spec fn ranks(id: SsdeepHash) -> bool {
        D::admits(id)
    }

    open spec fn center(features: Seq<SsdeepHash>) -> SsdeepHash {
        sampled_medoid::<D, SsdeepHash>(features)
    }

    fn medoid(features: &[SsdeepHash]) -> (m: SsdeepHash) {
        let at: usize = medoid_index::<D, SsdeepHash>(features, &D::default());
        features[at].clone()
    }
}

/// The centre of digests is their medoid: the first of those that are looked at with
/// the least sum of distances to these.
pub proof fn lemma_center_of_digests(
    features: Seq<TlshHash>,
    step: int,
    sum: spec_fn(int) -> int,
) -> (i: int)
    requires
        features.len() > 0,
        step == if features.len() < 512 {
            1
        } else {
            features.len() as int / 256
        },
        forall|x: int|
            #[trigger] sum(x) == Seq::new(
                ((features.len() - 1) / step + 1) as nat,
                |k: int| TlshDistance::distance(features[x], features[k * step]) as int,
            ).fold_left(0int, |a: int, b: int| a + b),
    ensures
        0 <= i,
        0 <= i * step < features.len(),
        <TlshHash as Medoid<TlshDistance>>::center(features) == features[i * step],
        forall|j: int|
            0 <= j && 0 <= #[trigger] (j * step) < features.len() ==> sum(i * step) <= sum(
                j * step,
            ),
        forall|j: int| 0 <= j < i ==> sum(i * step) < sum(#[trigger] (j * step)),
{
    lemma_medoid_is_central::<TlshDistance, TlshHash>(features, step, sum)
}

/// The centre of numbers is their medoid: the first of those that are looked at with
/// the least sum of distances to these.
pub proof fn lemma_center_of_numbers(
    features: Seq<u32>,
    step: int,
    sum: spec_fn(int) -> int,
) -> (i: int)
    requires
        features.len() > 0,
        step == if features.len() < 512 {
            1
        } else {
            features.len() as int / 256
        },
        forall|x: int|
            #[trigger] sum(x) == Seq::new(
                ((features.len() - 1) / step + 1) as nat,
                |k: int| NormalDistance::distance(features[x], features[k * step]) as int,
            ).fold_left(0int, |a: int, b: int| a + b),
    ensures
        0 <= i,
        0 <= i * step < features.len(),
        <u32 as Medoid<NormalDistance>>::center(features) == features[i * step],
        forall|j: int|
            0 <= j && 0 <= #[trigger] (j * step) < features.len() ==> sum(i * step) <= sum(
                j * step,
            ),
        forall|j: int| 0 <= j < i ==> sum(i * step) < sum(#[trigger] (j * step)),
{
    lemma_medoid_is_central::<NormalDistance, u32>(features, step, sum)
}

/// The centre of signatures is their medoid: the first of those that are looked at with
/// the least sum of distances to these.
pub proof fn lemma_center_of_signatures<D: DistanceAlgorithm<SsdeepHash> + Default>(
    features: Seq<SsdeepHash>,
    step: int,
    sum: spec_fn(int) -> int,
) -> (i: int)
    requires
        features.len() > 0,
        step == if features.len() < 512 {
            1
        } else {
            features.len() as int / 256
        },
        forall|x: int|
            #[trigger] sum(x) == Seq::new(
                ((features.len() - 1) / step + 1) as nat,
                |k: int| D::distance(features[x], features[k * step]) as int,
            ).fold_left(0int, |a: int, b: int| a + b),
    ensures
        0 <= i,
        0 <= i * step < features.len(),
        <SsdeepHash as Medoid<D>>::center(features) == features[i * step],
        forall|j: int|
            0 <= j && 0 <= #[trigger] (j * step) < features.len() ==> sum(i * step) <= sum(
                j * step,
            ),
        forall|j: int| 0 <= j < i ==> sum(i * step) < sum(#[trigger] (j * step)),
{
    lemma_medoid_is_central::<D, SsdeepHash>(features, step, sum)
}

/// Distance and score of two signatures make up a hundred; without a score they are
/// as far apart as with the least.
pub proof fn lemma_score_and_gap(score: u8)
    requires
        score <= 100,
    ensures
        score_gap(Some(score)) + score == 100,
        score_gap(None) == score_gap(Some(0)),
{
}

/// The distance of two numbers is what the lesser lacks to the greater, whichever
/// comes first.
pub proof fn lemma_gap(a: u32, b: u32)
    ensures
        a <= b ==> a + NormalDistance::distance(a, b) == b,
        a <= b ==> a + NormalDistance::distance(b, a) == b,
{
}

} // verus!
