//! Control-point optimization: which images take part, how the parameters
//! are laid out, and how the iteration goes on.

use crate::ids::find_id;
use crate::ids::is_first_of;
use crate::text::digits;
use crate::text::with_number;
use vstd::prelude::*;

verus! {

/// What is optimized besides the rotations.
#[derive(Debug, Clone, Copy, PartialEq, Eq, Structural)]
pub struct OptimizeFlags {
    /// A focal scale shared by all images.
    pub focal: bool,
    /// The radial distortion of the lens.
    pub distortion: bool,
    /// The shift of the optical centre.
    pub shift: bool,
}

impl Default for OptimizeFlags {
    fn default() -> (f: Self)
        ensures
            f == (OptimizeFlags { focal: true, distortion: true, shift: false }),
    {
        OptimizeFlags { focal: true, distortion: true, shift: false }
    }
}

/// Why control points cannot be optimized.
#[derive(Debug, Clone, Copy, PartialEq, Eq, Structural)]
pub enum OptimizeError {
    NoControlPoints,
    UnknownImage(u32),
    TooFewImages,
    MissingDimensions(u32),
}

impl OptimizeError {
    /// What to tell the user.
    pub open spec fn says(&self) -> Seq<char> {
        match *self {
            OptimizeError::NoControlPoints => "no control points"@,
            OptimizeError::UnknownImage(id) => "control point references unknown image "@ + digits(
                id as nat,
            ),
            OptimizeError::TooFewImages => "control points must span at least two images"@,
            OptimizeError::MissingDimensions(id) => "missing dimensions for image "@ + digits(
                id as nat,
            ),
        }
    }

    /// What to tell the user.
    pub fn message(&self) -> (s: String)
        ensures
            s@ == self.says(),
    {
        match self {
            OptimizeError::NoControlPoints => "no control points".to_string(),
            OptimizeError::UnknownImage(id) => with_number(
                "control point references unknown image ".to_string(),
                *id as u64,
            ),
            OptimizeError::TooFewImages =>
                "control points must span at least two images".to_string(),
            OptimizeError::MissingDimensions(id) => with_number(
                "missing dimensions for image ".to_string(),
                *id as u64,
            ),
        }
    }
}

/// The image ids that control points name, first end before second.
pub open spec fn named_ids(cps: Seq<(u32, u32)>) -> Seq<u32> {
    Seq::new(
        2 * cps.len(),
        |k: int|
            if k % 2 == 0 {
                cps[k / 2].0
            } else {
                cps[k / 2].1
            },
    )
}

/// The different ones of the first `k` ids, in the order in which they come.
pub open spec fn distinct(ids: Seq<u32>, k: int) -> Seq<u32>
    decreases k,
{
    if k <= 0 {
        Seq::empty()
    } else {
        let before = distinct(ids, k - 1);
        if before.contains(ids[k - 1]) {
            before
        } else {
            before.push(ids[k - 1])
        }
    }
}

/// The first `k` ids are all among `known`.
pub open spec fn known_until(ids: Seq<u32>, known: Seq<u32>, k: int) -> bool {
    forall|j: int| 0 <= j < k ==> known.contains(#[trigger] ids[j])
}

/// The images that control points join, and for each control point the places
/// of its two images among them.
pub open spec fn are_joined(
    aligned: Seq<u32>,
    cps: Seq<(u32, u32)>,
    used: Seq<usize>,
    ends: Seq<(usize, usize)>,
) -> bool {
    let named = named_ids(cps);
    let images = distinct(named, named.len() as int);
    &&& used.len() == images.len()
    &&& forall|k: int|
        0 <= k < used.len() ==> is_first_of(aligned, images[k], #[trigger] used[k] as int)
    &&& ends.len() == cps.len()
    &&& forall|k: int|
        0 <= k < ends.len() ==> {
            &&& (#[trigger] ends[k]).0 < images.len()
            &&& ends[k].1 < images.len()
            &&& images[ends[k].0 as int] == cps[k].0
            &&& images[ends[k].1 as int] == cps[k].1
        }
}

/// Notes image `id`, the one named as number `k`.
fn note_image(
    aligned: &[u32],
    id: u32,
    images: &mut Vec<u32>,
    used: &mut Vec<usize>,
    Ghost(named): Ghost<Seq<u32>>,
    Ghost(k): Ghost<int>,
) -> (r: Option<usize>)
    requires
        0 <= k < named.len(),
        named[k] == id,
        old(images)@ == distinct(named, k),
        old(used)@.len() == old(images)@.len(),
        forall|j: int|
            0 <= j < old(used)@.len() ==> is_first_of(
                aligned@,
                old(images)@[j],
                #[trigger] old(used)@[j] as int,
            ),
    ensures
        r is None <==> !aligned@.contains(id),
        r matches Some(i) ==> {
            &&& final(images)@ == distinct(named, k + 1)
            &&& final(used)@.len() == final(images)@.len()
            &&& forall|j: int|
                0 <= j < final(used)@.len() ==> is_first_of(
                    aligned@,
                    final(images)@[j],
                    #[trigger] final(used)@[j] as int,
                )
            &&& i < final(images)@.len()
            &&& final(images)@[i as int] == id
            &&& final(images)@.len() >= old(images)@.len()
            &&& forall|j: int|
                0 <= j < old(images)@.len() ==> #[trigger] final(images)@[j] == old(images)@[j]
        },
{
    match find_id(aligned, id) {
        None => None,
        Some(ai) => {
            assert(aligned@[ai as int] == id);
            match find_id(images.as_slice(), id) {
                Some(i) => {
                    assert(images@[i as int] == id);
                    Some(i)
                },
                None => {
                    let i: usize = images.len();
                    images.push(id);
                    used.push(ai);
                    Some(i)
                },
            }
        },
    }
}

/// Finds the images that control points join. `aligned` are the ids of the
/// aligned images, `sized` those of which the size is known.
#[verifier::spinoff_prover]
#[verifier::rlimit(40)]
pub fn join_images(aligned: &[u32], cps: &[(u32, u32)], sized: &[u32]) -> (r: Result<
    (Vec<usize>, Vec<(usize, usize)>),
    OptimizeError,
>)
    requires
        2 * cps@.len() <= usize::MAX,
    ensures
        ({
            let named = named_ids(cps@);
            let images = distinct(named, named.len() as int);
            match r {
                Ok((used, ends)) => {
                    &&& cps@.len() > 0
                    &&& are_joined(aligned@, cps@, used@, ends@)
                    &&& used@.len() >= 2
                    &&& known_until(images, sized@, images.len() as int)
                },
                Err(OptimizeError::NoControlPoints) => cps@.len() == 0,
                Err(OptimizeError::UnknownImage(id)) => exists|k: int|
                    0 <= k < named.len() && #[trigger] known_until(named, aligned@, k) && named[k]
                        == id && !aligned@.contains(id),
                Err(OptimizeError::TooFewImages) => {
                    &&& cps@.len() > 0
                    &&& known_until(named, aligned@, named.len() as int)
                    &&& images.len() < 2
                },
                Err(OptimizeError::MissingDimensions(id)) => {
                    &&& known_until(named, aligned@, named.len() as int)
                    &&& images.len() >= 2
                    &&& exists|k: int|
                        0 <= k < images.len() && #[trigger] known_until(images, sized@, k)
                            && images[k] == id && !sized@.contains(id)
                },
            }
        }),
{
    if cps.len() == 0 {
        return Err(OptimizeError::NoControlPoints);
    }
    let ghost named = named_ids(cps@);
    let mut images: Vec<u32> = Vec::new();
    let mut used: Vec<usize> = Vec::new();
    let mut ends: Vec<(usize, usize)> = Vec::new();
    let mut c: usize = 0;
    while c < cps.len()
        invariant
            c <= cps@.len(),
            named == named_ids(cps@),
            named.len() == 2 * cps@.len(),
            images@ == distinct(named, 2 * c),
            known_until(named, aligned@, 2 * c),
            used@.len() == images@.len(),
            forall|j: int|
                0 <= j < used@.len() ==> is_first_of(
                    aligned@,
                    images@[j],
                    #[trigger] used@[j] as int,
                ),
            ends@.len() == c,
            forall|k: int|
                0 <= k < ends@.len() ==> {
                    &&& (#[trigger] ends@[k]).0 < images@.len()
                    &&& ends@[k].1 < images@.len()
                    &&& images@[ends@[k].0 as int] == cps@[k].0
                    &&& images@[ends@[k].1 as int] == cps@[k].1
                },
        decreases cps@.len() - c,
    {
        let (a, b) = cps[c];
        assert(named[2 * c] == a);
        assert(named[2 * c + 1] == b);
        let ghost im0 = images@;
        let ia: usize = match note_image(
            aligned,
            a,
            &mut images,
            &mut used,
            Ghost(named),
            Ghost(2 * c),
        ) {
            Some(i) => i,
            None => {
                assert(known_until(named, aligned@, 2 * c));
                return Err(OptimizeError::UnknownImage(a));
            },
        };
        let ghost im1 = images@;
        assert(known_until(named, aligned@, 2 * c + 1));
        let ib: usize = match note_image(
            aligned,
            b,
            &mut images,
            &mut used,
            Ghost(named),
            Ghost(2 * c + 1),
        ) {
            Some(i) => i,
            None => {
                return Err(OptimizeError::UnknownImage(b));
            },
        };
        assert(known_until(named, aligned@, 2 * c + 2));
        ends.push((ia, ib));
        proof {
            assert(images@[ia as int] == im1[ia as int]);
            assert forall|k: int| 0 <= k < ends@.len() implies {
                &&& (#[trigger] ends@[k]).0 < images@.len()
                &&& ends@[k].1 < images@.len()
                &&& images@[ends@[k].0 as int] == cps@[k].0
                &&& images@[ends@[k].1 as int] == cps@[k].1
            } by {
                if k < c {
                    let (p, q) = (ends@[k].0 as int, ends@[k].1 as int);
                    assert(im1[p] == im0[p] && im1[q] == im0[q]);
                    assert(images@[p] == im1[p] && images@[q] == im1[q]);
                }
            }
        }
        c = c + 1;
    }
    if used.len() < 2 {
        return Err(OptimizeError::TooFewImages);
    }
    let mut k: usize = 0;
    while k < images.len()
        invariant
            k <= images@.len(),
            known_until(images@, sized@, k as int),
            named == named_ids(cps@),
            images@ == distinct(named, named.len() as int),
            images@.len() >= 2,
            known_until(named, aligned@, named.len() as int),
        decreases images@.len() - k,
    {
        let id: u32 = images[k];
        match find_id(sized, id) {
            None => {
                assert(known_until(images@, sized@, k as int));
                return Err(OptimizeError::MissingDimensions(id));
            },
            Some(i) => {
                assert(sized@[i as int] == id);
            },
        }
        k = k + 1;
    }
    Ok((used, ends))
}

/// Where each block of parameters starts.
#[derive(Debug)]
pub struct ParamLayout {
    /// Three parameters for each image but the one that is held fixed.
    pub rotations: Vec<Option<usize>>,
    /// One parameter.
    pub focal: Option<usize>,
    /// Three parameters.
    pub distortion: Option<usize>,
    /// Two parameters.
    pub shift: Option<usize>,
    pub total: usize,
}

/// Parameters before the rotation of image `i`.
pub open spec fn rotation_start(anchor: int, i: int) -> int {
    if i <= anchor {
        3 * i
    } else {
        3 * (i - 1)
    }
}

pub open spec fn width_if(flag: bool, width: int) -> int {
    if flag {
        width
    } else {
        0
    }
}

pub open spec fn starts_if(flag: bool, at: int, r: Option<usize>) -> bool {
    match r {
        Some(k) => flag && k == at,
        None => !flag,
    }
}

/// Lays the parameters of `n_images` images out: rotations in order, without
/// that of the `anchor`, then what the flags ask for.
pub fn layout_params(n_images: usize, anchor: usize, flags: &OptimizeFlags) -> (l: ParamLayout)
    requires
        anchor < n_images,
        3 * n_images + 6 <= usize::MAX,
    ensures
        l.rotations@.len() == n_images,
        forall|i: int|
            0 <= i < n_images ==> starts_if(
                i != anchor,
                rotation_start(anchor as int, i),
                #[trigger] l.rotations@[i],
            ),
        ({
            let base = 3 * (n_images - 1);
            let f = base + width_if(flags.focal, 1);
            let d = f + width_if(flags.distortion, 3);
            &&& starts_if(flags.focal, base, l.focal)
            &&& starts_if(flags.distortion, f, l.distortion)
            &&& starts_if(flags.shift, d, l.shift)
            &&& l.total == d + width_if(flags.shift, 2)
        }),
{
    let mut rotations: Vec<Option<usize>> = Vec::new();
    let mut k: usize = 0;
    let mut i: usize = 0;
    while i < n_images
        invariant
            anchor < n_images,
            3 * n_images + 6 <= usize::MAX,
            i <= n_images,
            rotations@.len() == i,
            k == rotation_start(anchor as int, i as int),
            forall|j: int|
                0 <= j < i ==> starts_if(
                    j != anchor,
                    rotation_start(anchor as int, j),
                    #[trigger] rotations@[j],
                ),
        decreases n_images - i,
    {
        if i == anchor {
            rotations.push(None);
        } else {
            rotations.push(Some(k));
            k = k + 3;
        }
        i = i + 1;
    }
    let focal: Option<usize> = if flags.focal {
        let at: usize = k;
        k = k + 1;
        Some(at)
    } else {
        None
    };
    let distortion: Option<usize> = if flags.distortion {
        let at: usize = k;
        k = k + 3;
        Some(at)
    } else {
        None
    };
    let shift: Option<usize> = if flags.shift {
        let at: usize = k;
        k = k + 2;
        Some(at)
    } else {
        None
    };
    ParamLayout { rotations, focal, distortion, shift, total: k }
}

/// The rotations' parameters fill the front of the layout: each of them
/// belongs to exactly one image that is not held fixed.
pub proof fn lemma_rotations_fill(n_images: int, anchor: int, k: int)
    requires
        0 <= anchor < n_images,
        0 <= k < 3 * (n_images - 1),
    ensures
        exists|i: int|
            0 <= i < n_images && i != anchor && #[trigger] rotation_start(anchor, i) <= k
                < rotation_start(anchor, i) + 3,
        forall|i: int, j: int|
            0 <= i < n_images && 0 <= j < n_images && i != anchor && j != anchor
                && #[trigger] rotation_start(anchor, i) <= k < rotation_start(anchor, i) + 3
                && #[trigger] rotation_start(anchor, j) <= k < rotation_start(anchor, j) + 3 ==> i
                == j,
{
    let i = if k / 3 < anchor {
        k / 3
    } else {
        k / 3 + 1
    };
    assert(rotation_start(anchor, i) <= k < rotation_start(anchor, i) + 3);
}

/// What came of trying a step.
#[derive(Debug, Clone, Copy, PartialEq, Eq, Structural)]
pub enum Trial {
    /// The equations could not be solved.
    Singular,
    /// The cost did not fall.
    Worse,
    /// The cost fell; `little` tells that it hardly did.
    Better { little: bool },
}

/// How to go on after a trial.
#[derive(Debug, Clone, Copy, PartialEq, Eq, Structural)]
pub enum NextTrial {
    /// Damp more and try again.
    Retry,
    /// Compute the derivatives anew.
    NextRound,
    Stop,
}

/// Rounds at most.
pub const MAX_ROUNDS: usize = 60;

/// Trials in a round at most.
pub const MAX_TRIALS: usize = 12;

/// The state of the iteration.
#[derive(Debug, Clone, Copy, PartialEq, Eq, Structural)]
pub struct Rounds {
    pub round: usize,
    pub trials: usize,
}

impl Rounds {
    pub open spec fn wf(&self) -> bool {
        1 <= self.round <= MAX_ROUNDS && self.trials < MAX_TRIALS
    }

    /// The first round.
    pub fn new() -> (r: Self)
        ensures
            r.wf(),
            r == (Rounds { round: 1, trials: 0 }),
    {
        Rounds { round: 1, trials: 0 }
    }

    /// Takes the outcome of a trial and decides how to go on.
    pub fn trial(&mut self, t: Trial) -> (n: NextTrial)
        requires
            old(self).wf(),
        ensures
            final(self).wf(),
            match t {
                Trial::Better { little } => if little || old(self).round == MAX_ROUNDS {
                    n is Stop && *final(self) == *old(self)
                } else {
                    n is NextRound && *final(self) == (Rounds {
                        round: (old(self).round + 1) as usize,
                        trials: 0,
                    })
                },
                _ => if old(self).trials + 1 < MAX_TRIALS {
                    n is Retry && *final(self) == (Rounds {
                        trials: (old(self).trials + 1) as usize,
                        ..*old(self)
                    })
                } else {
                    n is Stop && *final(self) == *old(self)
                },
            },
    {
        match t {
            Trial::Better { little } => {
                if little || self.round == MAX_ROUNDS {
                    NextTrial::Stop
                } else {
                    self.round = self.round + 1;
                    self.trials = 0;
                    NextTrial::NextRound
                }
            },
            _ => {
                if self.trials + 1 < MAX_TRIALS {
                    self.trials = self.trials + 1;
                    NextTrial::Retry
                } else {
                    NextTrial::Stop
                }
            },
        }
    }

    /// The number of rounds to report: all of them where the cost settled.
    pub fn reported(&self, settled: bool) -> (n: usize)
        ensures
            n == if settled {
                MAX_ROUNDS
            } else {
                self.round
            },
    {
        if settled {
            MAX_ROUNDS
        } else {
            self.round
        }
    }
}

/// The images that control points name are listed once each, in the order in
/// which they are first named.
pub proof fn lemma_distinct(ids: Seq<u32>, k: int, id: u32)
    requires
        0 <= k <= ids.len(),
    ensures
        distinct(ids, k).no_duplicates(),
        distinct(ids, k).contains(id) <==> exists|i: int| 0 <= i < k && #[trigger] ids[i] == id,
        k < ids.len() ==> distinct(ids, k + 1) == if exists|i: int|
            0 <= i < k && #[trigger] ids[i] == ids[k] {
            distinct(ids, k)
        } else {
            distinct(ids, k).push(ids[k])
        },
{
    lemma_distinct_has(ids, k, id);
    if k < ids.len() {
        lemma_distinct_has(ids, k, ids[k]);
    }
}

proof fn lemma_distinct_has(ids: Seq<u32>, k: int, id: u32)
    requires
        0 <= k <= ids.len(),
    ensures
        distinct(ids, k).no_duplicates(),
        distinct(ids, k).contains(id) <==> exists|i: int| 0 <= i < k && #[trigger] ids[i] == id,
    decreases k,
{
    if k > 0 {
        lemma_distinct_has(ids, k - 1, id);
        let before = distinct(ids, k - 1);
        let after = distinct(ids, k);
        if before.contains(id) {
            let i = before.index_of(id);
            assert(after[i] == id);
        }
        if after.contains(id) {
            let i = after.index_of(id);
            if i < before.len() {
                assert(before[i] == id);
            } else {
                assert(ids[k - 1] == id);
            }
        }
        if ids[k - 1] == id && !before.contains(id) {
            assert(after[before.len() as int] == id);
        }
    }
}

} // verus!
