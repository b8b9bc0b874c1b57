//! Stage reporting: who is told that a stage of a long call is starting.

use vstd::prelude::*;

verus! {

/// Holds the reporter that hears of starting stages, if there is one.
pub struct Hook<R> {
    reporter: Option<R>,
}

/// The reporter that a hook held before another took its place.
pub struct Guard<R> {
    previous: Option<R>,
}

impl<R> View for Hook<R> {
    type V = Option<R>;

    closed spec fn view(&self) -> Option<R> {
        self.reporter
    }
}

impl<R> View for Guard<R> {
    type V = Option<R>;

    closed spec fn view(&self) -> Option<R> {
        self.previous
    }
}

impl<R> Hook<R> {
    /// A hook that tells nobody.
    pub fn new() -> (h: Self)
        ensures
            h@ == None::<R>,
    {
        Hook { reporter: None }
    }

    /// Installs `f`. The guard brings back whatever was installed before.
    pub fn scoped(&mut self, f: R) -> (g: Guard<R>)
        ensures
            final(self)@ == Some(f),
            g@ == old(self)@,
    {
        let mut previous: Option<R> = Some(f);
        std::mem::swap(&mut self.reporter, &mut previous);
        Guard { previous }
    }

    /// Ends the scope that `g` stands for.
    pub fn restore(&mut self, g: Guard<R>)
        ensures
            final(self)@ == g@,
    {
        self.reporter = g.previous;
    }

    /// Who hears of a stage that starts now.
    pub fn stage(&self) -> (r: Option<&R>)
        ensures
            match r {
                Some(f) => self@ == Some(*f),
                None => self@ == None::<R>,
            },
    {
        self.reporter.as_ref()
    }
}

} // verus!
