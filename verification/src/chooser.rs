//! Strategies for choosing the service that gets the next request.
use crate::endpoints::{entries, table_get_index, table_len};
use indexmap::IndexMap;
use rand::rngs::SmallRng;
use rand::{Error as RngError, SeedableRng};
use vstd::prelude::*;

verus! {

/// The ready services, of which there are at least two.
#[derive(Debug)]
pub struct Replicas<'a> {
    inner: &'a IndexMap<u64, u64>,
}

/// There are fewer than two services, so that there is nothing to choose.
#[derive(Debug, Clone, Copy, PartialEq, Eq)]
pub struct TooFew;

impl<'a> View for Replicas<'a> {
    type V = Seq<(u64, u64)>;

    /// The keys and services, in their order.
    closed spec fn view(&self) -> Seq<(u64, u64)> {
        entries(*self.inner)
    }
}

/// The entries of a table as replicas, if there are two or more.
pub fn replicas<'a>(inner: &'a IndexMap<u64, u64>) -> (replicas: Result<Replicas<'a>, TooFew>)
    ensures
        replicas is Ok <==> entries(*inner).len() >= 2,
        replicas matches Ok(replicas) ==> replicas@ == entries(*inner),
{
    if table_len(inner) < 2 {
        return Err(TooFew);
    }
    Ok(Replicas { inner })
}

impl<'a> Replicas<'a> {
    /// The number of replicas.
    pub fn len(&self) -> (len: usize)
        ensures
            len == self@.len(),
    {
        table_len(self.inner)
    }

    /// The key and the service at `index`.
    pub fn get(&self, index: usize) -> (entry: Option<(u64, u64)>)
        ensures
            entry == (if index < self@.len() {
                Some(self@[index as int])
            } else {
                None
            }),
    {
        table_get_index(self.inner, index)
    }
}

/// A choice among replicas, by their indices.
#[derive(Debug, Clone, Copy, PartialEq, Eq)]
pub enum Choice {
    /// This one.
    One(usize),
    /// The one of the two that carries less load.
    LighterOf(usize, usize),
}

impl Choice {
    /// The choice names replicas that are there, of which there are `len`.
    pub open spec fn fits(self, len: nat) -> bool {
        match self {
            Choice::One(index) => index < len,
            Choice::LighterOf(first, second) => first < len && second < len,
        }
    }
}

/// A strategy for choosing services.
pub trait Choose: Sized {
    /// Whether the strategy may make this choice, and be left as `post` by it. A strategy that says
    /// nothing of itself may make any.
    open spec fn chooses(pre: Self, replicas: Seq<(u64, u64)>, choice: Choice, post: Self) -> bool {
        true
    }

    /// Chooses the replica to be used next.
    fn pick(&mut self, replicas: &Replicas<'_>) -> (choice: Choice)
        requires
            replicas@.len() >= 2,
        ensures
            choice.fits(replicas@.len()),
            Self::chooses(*old(self), replicas@, choice, *final(self)),
    ;
}

/// Chooses services sequentially. It looks at no load, so it can choose over any services.
#[derive(Debug)]
pub struct RoundRobin {
    /// The index to be used next.
    pos: usize,
}

impl RoundRobin {
    /// The index that is due next, if there is a replica at it.
    pub closed spec fn pos(self) -> usize {
        self.pos
    }
}

impl Default for RoundRobin {
    fn default() -> (chooser: Self)
        ensures
            chooser.pos() == 0,
    {
        RoundRobin { pos: 0 }
    }
}

impl Choose for RoundRobin {
    open spec fn chooses(pre: Self, replicas: Seq<(u64, u64)>, choice: Choice, post: Self) -> bool {
        let index = pre.pos() as int % replicas.len() as int;
        &&& choice == Choice::One(index as usize)
        &&& post.pos() == (index + 1) % replicas.len() as int
    }

    fn pick(&mut self, replicas: &Replicas<'_>) -> (choice: Choice) {
        let len = replicas.len();
        let index = self.pos % len;
        self.pos = (index + 1) % len;
        Choice::One(index)
    }
}

/// `rand::rngs::SmallRng`, a small generator of random numbers.
#[verifier::external_type_specification]
#[verifier::external_body]
pub struct ExSmallRng(rand::rngs::SmallRng);

/// `rand::Error`, the failure of a generator of random numbers.
#[verifier::external_type_specification]
#[verifier::external_body]
pub struct ExRngError(RngError);

/// No generator could be seeded, for this reason.
#[derive(Debug)]
pub struct SeedError(pub RngError);

/// `rand::SeedableRng::from_rng` for `SmallRng`, from a copy of another `SmallRng`: a generator
/// seeded with bytes drawn from the given one, and the given one after the draw. Drawing from a
/// `SmallRng` never fails, so there always is one; what the two generators hold is not said.
#[verifier::external_body]
pub(crate) fn rng_from_rng(rng: &SmallRng) -> (seeded: (Result<SmallRng, RngError>, SmallRng))
    ensures
        seeded.0 is Ok,
{
    let mut next = rng.clone();
    (SmallRng::from_rng(&mut next), next)
}

/// Seeding a generator from `rng` may give `seeded`, and leave `rng` as `next`.
pub closed spec fn seeds(
    rng: SmallRng,
    seeded: Result<SmallRng, RngError>,
    next: SmallRng,
) -> bool {
    call_ensures(rng_from_rng, (&rng,), (seeded, next))
}

/// A generator that is seeded from `rng`.
pub(crate) fn seed_from(rng: &mut SmallRng) -> (seeded: Result<SmallRng, RngError>)
    ensures
        seeded is Ok,
        seeds(*old(rng), seeded, *final(rng)),
{
    let from_rng = rng_from_rng;
    let (seeded, next) = from_rng(rng);
    *rng = next;
    seeded
}

/// `rand::seq::index::sample` for two indices, on a copy of the generator: two different indices
/// below `len`, drawn at random, and the generator after the draw.
#[verifier::external_body]
pub(crate) fn rng_sample_two(rng: &SmallRng, len: usize) -> (drawn: ((usize, usize), SmallRng))
    requires
        len >= 2,
    ensures
        drawn.0.0 < len,
        drawn.0.1 < len,
        drawn.0.0 != drawn.0.1,
{
    let mut next = rng.clone();
    let sampled = rand::seq::index::sample(&mut next, len, 2);
    ((sampled.index(0), sampled.index(1)), next)
}

/// The draw of two indices below `len` from a generator may give this pair, and leave the generator
/// as `next`.
pub closed spec fn draws(rng: SmallRng, len: nat, pair: (usize, usize), next: SmallRng) -> bool {
    call_ensures(rng_sample_two, (&rng, len as usize), (pair, next))
}

/// Chooses the less loaded of two services that are picked at random.
#[derive(Debug)]
pub struct PowerOfTwoChoices {
    rng: SmallRng,
}

impl PowerOfTwoChoices {
    /// The generator that the pairs are drawn with.
    pub closed spec fn rng(self) -> SmallRng {
        self.rng
    }

    /// A chooser that draws its pairs with `rng`.
    pub fn new(rng: SmallRng) -> (chooser: Self)
        ensures
            chooser.rng() == rng,
    {
        PowerOfTwoChoices { rng }
    }
}

impl Choose for PowerOfTwoChoices {
    open spec fn chooses(pre: Self, replicas: Seq<(u64, u64)>, choice: Choice, post: Self) -> bool {
        choice matches Choice::LighterOf(first, second) && {
            &&& first < replicas.len()
            &&& second < replicas.len()
            &&& first != second
            &&& draws(pre.rng(), replicas.len(), (first, second), post.rng())
        }
    }

    fn pick(&mut self, replicas: &Replicas<'_>) -> (choice: Choice) {
        let sample_two = rng_sample_two;
        let ((first, second), next) = sample_two(&self.rng, replicas.len());
        self.rng = next;
        Choice::LighterOf(first, second)
    }
}

/// The power of two choices compares the very pair that is drawn from its generator over as many
/// indices as there are replicas, in the order of the draw, and goes on with the generator that the
/// draw leaves. The two are different, and are there.
pub proof fn law_pair_is_drawn(
    pre: PowerOfTwoChoices,
    replicas: Seq<(u64, u64)>,
    choice: Choice,
    post: PowerOfTwoChoices,
)
    requires
        PowerOfTwoChoices::chooses(pre, replicas, choice, post),
    ensures
        choice matches Choice::LighterOf(first, second) && {
            &&& draws(pre.rng(), replicas.len(), (first, second), post.rng())
            &&& first != second
            &&& first < replicas.len()
            &&& second < replicas.len()
        },
{
}

/// What is drawn and what is seeded is what `rand` gives, and nothing else.
pub(crate) proof fn law_randomness_is_drawn(
    rng: SmallRng,
    len: nat,
    pair: (usize, usize),
    seeded: Result<SmallRng, RngError>,
    next: SmallRng,
)
    ensures
        draws(rng, len, pair, next) ==> call_ensures(
            rng_sample_two,
            (&rng, len as usize),
            (pair, next),
        ),
        seeds(rng, seeded, next) ==> call_ensures(rng_from_rng, (&rng,), (seeded, next)),
{
}

/// Round robin chooses the index that it stands at, or where it was left among as many replicas as
/// there are if there are too few for that. It then stands at the index after it, and at the first
/// after the last.
pub proof fn law_round_robin_moves_on(
    pre: RoundRobin,
    replicas: Seq<(u64, u64)>,
    choice: Choice,
    post: RoundRobin,
)
    requires
        2 <= replicas.len() <= usize::MAX,
        RoundRobin::chooses(pre, replicas, choice, post),
    ensures
        choice matches Choice::One(index) && {
            &&& index < replicas.len()
            &&& pre.pos() < replicas.len() ==> index == pre.pos()
            &&& (pre.pos() - index) % replicas.len() as int == 0
            &&& post.pos() == if index + 1 < replicas.len() {
                index + 1
            } else {
                0
            }
        },
{
    let n = replicas.len() as int;
    let p = pre.pos() as int;
    let index = p % n;
    assert(0 <= index < n) by (nonlinear_arith)
        requires
            index == p % n,
            n > 0,
    ;
    if p < n {
        vstd::arithmetic::div_mod::lemma_small_mod(p as nat, n as nat);
    }
    vstd::arithmetic::div_mod::lemma_mod_twice(p, n);
    vstd::arithmetic::div_mod::lemma_mod_equivalence(p, index, n);
    if index + 1 < n {
        vstd::arithmetic::div_mod::lemma_small_mod((index + 1) as nat, n as nat);
    } else {
        vstd::arithmetic::div_mod::lemma_mod_self_0(n);
    }
}

} // verus!
