//! Control of the bundle adjustment: which pairs of images take part, and how
//! the damped least-squares iteration goes on.

use crate::estimation::MatchGraph;
use crate::matcher::Ratio;
use vstd::prelude::*;

verus! {

/// Parameters of a camera: its focal length and a rotation vector.
pub const NUM_PARAMS_PER_CAM: usize = 4;

/// Residuals of a pair of matched points.
pub const NUM_ERRS_PER_MEASUREMENT: usize = 3;

/// Iterations after which the adjustment stops.
pub const MAX_COUNT: usize = 1000;

/// Parameters above which the normal equations are solved by factorization.
pub const LDLT_MIN_PARAMS: usize = 160;

/// The pair takes part: its confidence is above one.
pub open spec fn is_consistent(g: &MatchGraph, i: int, j: int) -> bool {
    (Ratio { num: 1, den: 1 }).lt(g.pair(i, j).confidence)
}

/// Those of the pairs listed before (`a`, `b`) row by row that take part, each
/// with its lower index first.
pub open spec fn consistent_until(g: &MatchGraph, a: int, b: int) -> Seq<(usize, usize)>
    decreases a, b,
{
    if a <= 0 && b <= 0 {
        Seq::empty()
    } else if b <= 0 {
        consistent_until(g, a - 1, g.n as int)
    } else {
        let before = consistent_until(g, a, b - 1);
        if a < b - 1 && is_consistent(g, a, b - 1) {
            before.push((a as usize, (b - 1) as usize))
        } else {
            before
        }
    }
}

/// The pairs of images that take part, in order.
pub fn consistent_pairs(graph: &MatchGraph) -> (edges: Vec<(usize, usize)>)
    requires
        graph.wf(),
    ensures
        edges@ == consistent_until(graph, graph.n as int, 0),
{
    let n: usize = graph.n;
    let mut edges: Vec<(usize, usize)> = Vec::new();
    let mut i: usize = 0;
    while i < n
        invariant
            n == graph.n,
            graph.wf(),
            i <= n,
            edges@ == consistent_until(graph, i as int, 0),
        decreases n - i,
    {
        let mut j: usize = 0;
        while j < n
            invariant
                n == graph.n,
                graph.wf(),
                i < n,
                j <= n,
                edges@ == consistent_until(graph, i as int, j as int),
            decreases n - j,
        {
            if i < j {
                let one = Ratio { num: 1, den: 1 };
                if one.less(&graph.at(i, j).confidence) {
                    edges.push((i, j));
                }
            }
            j = j + 1;
        }
        i = i + 1;
    }
    edges
}

/// How far the iteration has come.
#[derive(Debug, Clone, Copy, PartialEq, Eq, Structural)]
pub enum LmState {
    Started,
    CalcJ,
    CheckErr,
    Done,
}

/// What has to be computed before the next update.
#[derive(Debug, Clone, Copy, PartialEq, Eq, Structural)]
pub struct LmRequest {
    /// Whether the iteration goes on.
    pub proceed: bool,
    pub want_jac: bool,
    pub want_err: bool,
    /// Form the normal equations, and keep the parameters, before stepping.
    pub form: bool,
    /// Damp and solve the normal equations and move the parameters.
    pub step: bool,
    /// The errors at hand become those to improve on.
    pub keep_norm: bool,
}

/// Damped least squares: the damping is ten to the power of `lambda_lg10`.
#[derive(Debug, Clone, Copy, PartialEq, Eq, Structural)]
pub struct LevMarq {
    pub state: LmState,
    pub lambda_lg10: i32,
    pub iters: usize,
}

/// A request to compute errors, and derivatives too if `jac` is set.
pub open spec fn asks(jac: bool, form: bool, step: bool, keep_norm: bool) -> LmRequest {
    LmRequest { proceed: true, want_jac: jac, want_err: true, form, step, keep_norm }
}

/// A request to stop.
pub open spec fn stops(proceed: bool) -> LmRequest {
    LmRequest {
        proceed,
        want_jac: false,
        want_err: false,
        form: false,
        step: false,
        keep_norm: false,
    }
}

/// Less damping, down to the least there is.
pub open spec fn relaxed(lambda_lg10: int) -> i32 {
    if lambda_lg10 - 1 > -16 {
        (lambda_lg10 - 1) as i32
    } else {
        (-16) as i32
    }
}

impl LevMarq {
    pub open spec fn wf(&self) -> bool {
        &&& -16 <= self.lambda_lg10 <= 16
        &&& self.iters <= MAX_COUNT
        &&& self.state !is Done ==> self.iters < MAX_COUNT
    }

    /// What is left of the iteration at most, in updates.
    pub open spec fn measure(&self) -> int {
        let rounds = 100 * (MAX_COUNT - self.iters);
        match self.state {
            LmState::Done => 0,
            LmState::Started => rounds + 99,
            LmState::CalcJ => rounds + 60,
            LmState::CheckErr => rounds + 20 - self.lambda_lg10,
        }
    }

    pub fn new() -> (s: Self)
        ensures
            s.wf(),
            s.state is Started,
            s.lambda_lg10 == -3,
            s.iters == 0,
    {
        LevMarq { state: LmState::Started, lambda_lg10: -3, iters: 0 }
    }

    /// The state after an update, and what it asks for. `worse` tells whether
    /// the errors grew over those kept, and `settled` whether the parameters
    /// hardly moved since they were kept.
    pub open spec fn updated(&self, worse: bool, settled: bool) -> (LevMarq, LmRequest) {
        match self.state {
            LmState::Done => (*self, stops(false)),
            LmState::Started => (
                LevMarq { state: LmState::CalcJ, ..*self },
                asks(true, false, false, false),
            ),
            LmState::CalcJ => (
                LevMarq { state: LmState::CheckErr, ..*self },
                asks(false, true, true, self.iters == 0),
            ),
            LmState::CheckErr => if worse && self.lambda_lg10 + 1 <= 16 {
                (
                    LevMarq { lambda_lg10: (self.lambda_lg10 + 1) as i32, ..*self },
                    asks(false, false, true, false),
                )
            } else {
                let lambda_lg10 = relaxed(
                    if worse {
                        self.lambda_lg10 + 1
                    } else {
                        self.lambda_lg10 as int
                    },
                );
                let iters = (self.iters + 1) as usize;
                if iters >= MAX_COUNT || settled {
                    (LevMarq { state: LmState::Done, lambda_lg10, iters }, stops(true))
                } else {
                    (
                        LevMarq { state: LmState::CalcJ, lambda_lg10, iters },
                        asks(true, false, false, true),
                    )
                }
            },
        }
    }

    /// Takes the outcome of the last request and decides how to go on. Every
    /// update brings the end nearer.
    pub fn update(&mut self, worse: bool, settled: bool) -> (r: LmRequest)
        requires
            old(self).wf(),
        ensures
            final(self).wf(),
            (*final(self), r) == old(self).updated(worse, settled),
            old(self).state !is Done ==> 0 <= final(self).measure() < old(self).measure(),
    {
        match self.state {
            LmState::Done => LmRequest {
                proceed: false,
                want_jac: false,
                want_err: false,
                form: false,
                step: false,
                keep_norm: false,
            },
            LmState::Started => {
                self.state = LmState::CalcJ;
                LmRequest {
                    proceed: true,
                    want_jac: true,
                    want_err: true,
                    form: false,
                    step: false,
                    keep_norm: false,
                }
            },
            LmState::CalcJ => {
                self.state = LmState::CheckErr;
                LmRequest {
                    proceed: true,
                    want_jac: false,
                    want_err: true,
                    form: true,
                    step: true,
                    keep_norm: self.iters == 0,
                }
            },
            LmState::CheckErr => {
                if worse {
                    self.lambda_lg10 = self.lambda_lg10 + 1;
                    if self.lambda_lg10 <= 16 {
                        return LmRequest {
                            proceed: true,
                            want_jac: false,
                            want_err: true,
                            form: false,
                            step: true,
                            keep_norm: false,
                        };
                    }
                }
                self.lambda_lg10 = if self.lambda_lg10 - 1 > -16 {
                    self.lambda_lg10 - 1
                } else {
                    -16
                };
                self.iters = self.iters + 1;
                if self.iters >= MAX_COUNT || settled {
                    self.state = LmState::Done;
                    return LmRequest {
                        proceed: true,
                        want_jac: false,
                        want_err: false,
                        form: false,
                        step: false,
                        keep_norm: false,
                    };
                }
                self.state = LmState::CalcJ;
                LmRequest {
                    proceed: true,
                    want_jac: true,
                    want_err: true,
                    form: false,
                    step: false,
                    keep_norm: true,
                }
            },
        }
    }
}

/// The pairs that are adjusted are those of confidence over 1, each once, the
/// first image before the second, row by row.
pub proof fn lemma_consistent(g: &MatchGraph, i: usize, j: usize, a: int, b: int)
    requires
        g.n <= usize::MAX,
    ensures
        ({
            let list = consistent_until(g, g.n as int, 0);
            let conf = g.pair(i as int, j as int).confidence;
            &&& list.contains((i, j)) <==> i < j < g.n && conf.num > conf.den
            &&& 0 <= a < b < list.len() ==> list[a].0 < list[b].0 || (list[a].0 == list[b].0
                && list[a].1 < list[b].1)
        }),
{
    lemma_consistent_until(g, g.n as int, 0, i, j);
    lemma_consistent_order(g, g.n as int, 0);
}

proof fn lemma_consistent_until(g: &MatchGraph, a: int, b: int, i: usize, j: usize)
    requires
        0 <= a <= g.n,
        0 <= b <= g.n,
        a == g.n ==> b == 0,
    ensures
        consistent_until(g, a, b).contains((i, j)) <==> {
            let conf = g.pair(i as int, j as int).confidence;
            i < j < g.n && conf.num > conf.den && (i < a || (i == a && j < b))
        },
    decreases a, b,
{
    if a <= 0 && b <= 0 {
    } else if b <= 0 {
        lemma_consistent_until(g, a - 1, g.n as int, i, j);
    } else {
        lemma_consistent_until(g, a, b - 1, i, j);
        let before = consistent_until(g, a, b - 1);
        let one = (a as usize, (b - 1) as usize);
        let after = before.push(one);
        if before.contains((i, j)) {
            let k = before.index_of((i, j));
            assert(after[k] == (i, j));
        }
        if (i, j) == one {
            assert(after[before.len() as int] == (i, j));
        }
        if after.contains((i, j)) && (i, j) != one {
            let k = after.index_of((i, j));
            assert(before[k] == (i, j));
        }
    }
}

proof fn lemma_consistent_order(g: &MatchGraph, a: int, b: int)
    requires
        0 <= a <= g.n,
        0 <= b <= g.n,
        a == g.n ==> b == 0,
    ensures
        ({
            let list = consistent_until(g, a, b);
            forall|x: int, y: int|
                0 <= x < y < list.len() ==> (#[trigger] list[x]).0 < (#[trigger] list[y]).0 || (
                list[x].0 == list[y].0 && list[x].1 < list[y].1)
        }),
    decreases a, b,
{
    if a <= 0 && b <= 0 {
        assert(consistent_until(g, a, b).len() == 0);
    } else if b <= 0 {
        lemma_consistent_order(g, a - 1, g.n as int);
        assert(consistent_until(g, a, b) == consistent_until(g, a - 1, g.n as int));
    } else {
        lemma_consistent_order(g, a, b - 1);
        let before = consistent_until(g, a, b - 1);
        assert forall|x: int| 0 <= x < before.len() implies (#[trigger] before[x]).0 < a || (
        before[x].0 == a && before[x].1 < b - 1) by {
            assert(before.contains(before[x]));
            lemma_consistent_until(g, a, b - 1, before[x].0, before[x].1);
        }
        let list = consistent_until(g, a, b);
        assert forall|x: int, y: int| 0 <= x < y < list.len() implies (#[trigger] list[x]).0 < (
        #[trigger] list[y]).0 || (list[x].0 == list[y].0 && list[x].1 < list[y].1) by {
            assert(list[x] == before[x]);
            if y < before.len() {
                assert(list[y] == before[y]);
            }
        }
    }
}

/// How the adjustment goes on once the errors of a step are known: a worse
/// step is damped ten times as much and tried again, up to ten to the 16th;
/// any other counts as a round and is damped ten times less from then on, down
/// to ten to the minus 16th. After a thousand rounds, or once settled, it ends.
pub proof fn lemma_damping(s: LevMarq, worse: bool, settled: bool)
    requires
        s.wf(),
        s.state is CheckErr,
    ensures
        ({
            let (t, r) = s.updated(worse, settled);
            if worse && s.lambda_lg10 < 16 {
                &&& t.lambda_lg10 == s.lambda_lg10 + 1
                &&& t.iters == s.iters
                &&& t.state is CheckErr
                &&& r.step && !r.form && !r.want_jac && r.want_err && r.proceed
            } else {
                &&& t.iters == s.iters + 1
                &&& worse ==> t.lambda_lg10 == 16
                &&& !worse && s.lambda_lg10 > -16 ==> t.lambda_lg10 == s.lambda_lg10 - 1
                &&& !worse && s.lambda_lg10 == -16 ==> t.lambda_lg10 == -16
                &&& t.state is Done <==> settled || t.iters >= 1000
                &&& t.state !is Done ==> t.state is CalcJ && r.want_jac && r.want_err && r.keep_norm
                    && !r.step && r.proceed
            }
        }),
{
}

} // verus!
