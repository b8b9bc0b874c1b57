//! Robust fitting by random samples: how a homography is sought, which
//! samples are drawn, and when the search ends.

use crate::matcher::count_set;
use vstd::prelude::*;

verus! {

/// Points in a sample.
pub const MODEL_POINTS: usize = 4;

/// Samples tried at most.
pub const MAX_ITERS: i32 = 2000;

/// Draws of a sample before the search is given up.
pub const MAX_ATTEMPTS: usize = 10000;

/// How a homography between two point sets is found.
#[derive(Debug, Clone, Copy, PartialEq, Eq, Structural)]
pub enum Approach {
    /// There is none.
    Hopeless,
    /// From all points at once, all of them inliers.
    Direct,
    /// From random samples.
    Sampling,
}

/// Four points fix a homography; more call for sampling.
pub fn approach(n_src: usize, n_dst: usize) -> (a: Approach)
    ensures
        a == if n_src != n_dst || n_src < MODEL_POINTS {
            Approach::Hopeless
        } else if n_src == MODEL_POINTS {
            Approach::Direct
        } else {
            Approach::Sampling
        },
{
    if n_src != n_dst || n_src < MODEL_POINTS {
        Approach::Hopeless
    } else if n_src == MODEL_POINTS {
        Approach::Direct
    } else {
        Approach::Sampling
    }
}

/// A sample being drawn: indices without repetition.
#[derive(Debug)]
pub struct Sample {
    picked: Vec<usize>,
}

impl View for Sample {
    type V = Seq<usize>;

    closed spec fn view(&self) -> Seq<usize> {
        self.picked@
    }
}

impl Sample {
    /// At most four indices, all different.
    pub open spec fn wf(&self) -> bool {
        self@.len() <= MODEL_POINTS && self@.no_duplicates()
    }

    pub fn new() -> (s: Self)
        ensures
            s.wf(),
            s@ == Seq::<usize>::empty(),
    {
        Sample { picked: Vec::new() }
    }

    pub fn is_complete(&self) -> (b: bool)
        ensures
            b == (self@.len() >= MODEL_POINTS),
    {
        self.picked.len() >= MODEL_POINTS
    }

    /// The indices drawn so far, in order.
    pub fn indices(&self) -> (r: &[usize])
        ensures
            r@ == self@,
    {
        self.picked.as_slice()
    }

    /// Takes a drawn index, unless it is in the sample already.
    pub fn offer(&mut self, index: usize)
        requires
            old(self).wf(),
            old(self)@.len() < MODEL_POINTS,
        ensures
            final(self).wf(),
            final(self)@ == if old(self)@.contains(index) {
                old(self)@
            } else {
                old(self)@.push(index)
            },
    {
        let mut k: usize = 0;
        while k < self.picked.len()
            invariant
                self.wf(),
                self@ == old(self)@,
                k <= self.picked@.len(),
                forall|j: int| 0 <= j < k ==> #[trigger] self.picked@[j] != index,
            decreases self.picked@.len() - k,
        {
            if self.picked[k] == index {
                return;
            }
            k = k + 1;
        }
        self.picked.push(index);
    }
}

/// The state of a search: samples tried, samples to try, and the most inliers
/// that a model has had.
#[derive(Debug, Clone, Copy, PartialEq, Eq, Structural)]
pub struct Search {
    pub iter: i32,
    pub niters: i32,
    pub best: usize,
}

/// What to do when no sample could be drawn.
#[derive(Debug, Clone, Copy, PartialEq, Eq, Structural)]
pub enum NoSample {
    /// Nothing was tried: there is no model.
    Fail,
    /// Go on with the best model so far.
    Stop,
}

impl Search {
    pub fn new() -> (s: Self)
        ensures
            s == (Search { iter: 0, niters: MAX_ITERS, best: 0 }),
    {
        Search { iter: 0, niters: MAX_ITERS, best: 0 }
    }

    /// Whether another sample is to be tried.
    pub fn goes_on(&self) -> (b: bool)
        ensures
            b == (self.iter < self.niters),
    {
        self.iter < self.niters
    }

    pub fn no_sample(&self) -> (n: NoSample)
        ensures
            n == if self.iter == 0 {
                NoSample::Fail
            } else {
                NoSample::Stop
            },
    {
        if self.iter == 0 {
            NoSample::Fail
        } else {
            NoSample::Stop
        }
    }

    /// Whether a model with `good` inliers becomes the best: it has more than
    /// any before, and more than three.
    pub fn improves(&self, good: usize) -> (b: bool)
        ensures
            b == (good > self.best && good >= MODEL_POINTS),
    {
        good > self.best && good >= MODEL_POINTS
    }

    /// Notes the best model's inliers and how many samples they make worth
    /// trying.
    pub fn accept(&mut self, good: usize, niters: i32)
        ensures
            *final(self) == (Search { best: good, niters, ..*old(self) }),
    {
        self.best = good;
        self.niters = niters;
    }

    /// One more sample has been tried.
    pub fn advance(&mut self)
        requires
            old(self).iter < old(self).niters,
        ensures
            *final(self) == (Search { iter: (old(self).iter + 1) as i32, ..*old(self) }),
    {
        self.iter = self.iter + 1;
    }

    /// Whether a model was found.
    pub fn found(&self) -> (b: bool)
        ensures
            b == (self.best > 0),
    {
        self.best > 0
    }
}

/// The number of inliers.
pub fn count_inliers(flags: &[bool]) -> (n: usize)
    ensures
        n == count_set(flags@, flags@.len() as int),
        n <= flags@.len(),
{
    let mut n: usize = 0;
    let mut i: usize = 0;
    while i < flags.len()
        invariant
            i <= flags@.len(),
            n <= i,
            n == count_set(flags@, i as int),
        decreases flags@.len() - i,
    {
        if flags[i] {
            n = n + 1;
        }
        i = i + 1;
    }
    n
}

} // verus!
