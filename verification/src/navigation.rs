//! Moving between screens.
//!
//! The screens form a stack rather than a single variable: going back from
//! the briefing must lead to the learning path, which must itself lead back
//! to the choice of script. With a single "current screen" field, each screen
//! would have to know where the player came from; the stack remembers it.
//!
//! A screen never changes the stack itself: it returns a `Transition` that
//! the main loop applies, so that no screen removes itself from under its
//! own feet in the middle of drawing.

use vstd::prelude::*;

verus! {

/// What a screen asks the main loop to do with the stack.
#[must_use]
pub enum Transition<S> {
    /// Stay on this screen.
    Stay,
    /// Put a screen on top, keeping this one below.
    Push(S),
    /// Go back to the previous screen.
    Pop,
    /// Go back this many screens, the root staying whatever the count: the
    /// results of a round lead back to the path, past the briefing below.
    PopMany(usize),
    /// Replace this screen: a round started again must not pile up on the
    /// previous one, or "back" would go through every attempt.
    Replace(S),
    /// Go back to the root, however many screens are piled up.
    ToRoot,
    Quit,
}

/// The stack of screens. It is never empty: the root always stays.
pub struct Navigator<S> {
    stack: Vec<S>,
}

/// The stack once a transition is applied.
pub open spec fn applied<S>(stack: Seq<S>, t: Transition<S>) -> Seq<S> {
    match t {
        Transition::Stay => stack,
        Transition::Push(s) => stack.push(s),
        Transition::Pop => if stack.len() > 1 {
            stack.drop_last()
        } else {
            stack
        },
        Transition::PopMany(n) => stack.take(if stack.len() - n >= 1 {
            stack.len() - n
        } else {
            1
        }),
        Transition::Replace(s) => stack.drop_last().push(s),
        Transition::ToRoot => stack.take(1),
        Transition::Quit => stack,
    }
}

impl<S> Navigator<S> {
    /// The screens, from the root to the one shown.
    pub closed spec fn screens(&self) -> Seq<S> {
        self.stack@
    }

    /// Well formed: the root is there.
    pub open spec fn wf(&self) -> bool {
        self.screens().len() >= 1
    }

    /// A stack holding only its root.
    pub fn new(root: S) -> (n: Self)
        ensures
            n.wf(),
            n.screens() == seq![root],
    {
        let mut stack: Vec<S> = Vec::new();
        stack.push(root);
        Navigator { stack }
    }

    /// The screen shown.
    pub fn top(&self) -> (top: &S)
        requires
            self.wf(),
        ensures
            *top == self.screens().last(),
    {
        &self.stack[self.stack.len() - 1]
    }

    /// The screen shown, to change it.
    pub fn top_mut(&mut self) -> (top: &mut S)
        requires
            old(self).wf(),
        ensures
            *top == old(self).screens().last(),
            final(self).screens() == old(self).screens().update(old(self).screens().len() - 1, *final(top)),
    {
        let last = self.stack.len() - 1;
        &mut self.stack[last]
    }

    /// The number of screens piled up.
    pub fn depth(&self) -> (n: usize)
        ensures
            n == self.screens().len(),
    {
        self.stack.len()
    }

    /// Is there a screen below to go back to?
    pub fn can_go_back(&self) -> (b: bool)
        ensures
            b == (self.screens().len() > 1),
    {
        self.stack.len() > 1
    }

    /// Applies a transition. Gives `false` when the game must stop.
    pub fn apply(&mut self, transition: Transition<S>) -> (go_on: bool)
        requires
            old(self).wf(),
        ensures
            final(self).wf(),
            final(self).screens() == applied(old(self).screens(), transition),
            go_on == !(transition is Quit),
    {
        match transition {
            Transition::Stay => {},
            Transition::Push(screen) => {
                self.stack.push(screen);
            },
            Transition::Pop => {
                // The root is never taken off: without it, nothing is left
                // to show.
                if self.can_go_back() {
                    self.stack.pop();
                }
            },
            Transition::PopMany(n) => {
                let ghost before = self.stack@;
                let mut left = n;
                while left > 0 && self.stack.len() > 1
                    invariant
                        self.stack@.len() >= 1,
                        self.stack@.len() <= before.len(),
                        before.len() >= 1,
                        self.stack@ == before.take(self.stack@.len() as int),
                        before.len() - self.stack@.len() + left == n,
                    decreases left,
                {
                    self.stack.pop();
                    left = left - 1;
                }
            },
            Transition::Replace(screen) => {
                self.stack.pop();
                self.stack.push(screen);
            },
            Transition::ToRoot => {
                self.stack.truncate(1);
            },
            Transition::Quit => {
                return false;
            },
        }
        true
    }
}

/// Going back after a push returns to the very same stack.
pub proof fn law_push_then_pop<S>(stack: Seq<S>, screen: S)
    requires
        stack.len() >= 1,
    ensures
        applied(applied(stack, Transition::Push(screen)), Transition::Pop) == stack,
{
    assert(stack.push(screen).drop_last() =~= stack);
}

/// Whatever is applied, the root stays at the bottom of the stack, except
/// when a replacement is asked on the root itself; going back to the root
/// leaves it alone on the stack.
pub proof fn law_root_stays<S>(stack: Seq<S>, t: Transition<S>)
    requires
        stack.len() >= 1,
    ensures
        applied(stack, t).len() >= 1,
        !(t is Replace) || stack.len() > 1 ==> applied(stack, t)[0] == stack[0],
        t is ToRoot ==> applied(stack, t) == seq![stack[0]],
{
    if t is ToRoot {
        assert(stack.take(1) =~= seq![stack[0]]);
    }
}

/// A replacement keeps the depth of the stack: a round started again does
/// not pile up on the previous one.
pub proof fn law_replace_keeps_depth<S>(stack: Seq<S>, screen: S)
    requires
        stack.len() >= 1,
    ensures
        applied(stack, Transition::Replace(screen)).len() == stack.len(),
        applied(stack, Transition::Replace(screen)).last() == screen,
{
}

} // verus!
