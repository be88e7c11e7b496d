use vstd::prelude::*;

use crate::classfile::Method;
use crate::constant_pool::ConstantPool;
use crate::frame::{spec_run, Frame, FrameResult};
use crate::instructions::FrameError;

verus! {

/// Runs the frames of a call stack from the top down, each to its end.
pub open spec fn spec_run_frames(frames: Seq<Frame>) -> Result<(), FrameError>
    decreases frames.len(),
{
    if frames.len() == 0 {
        Ok(())
    } else {
        let f = frames.last();
        match spec_run(f.constant_pool@, f.code@, f.max_stack as nat, f.machine()) {
            Err(e) => Err(e),
            Ok((_, FrameResult::NextFrame(i))) => Err(FrameError::UnsupportedCall(i)),
            Ok((_, FrameResult::Finished)) => spec_run_frames(frames.drop_last()),
        }
    }
}

/// A thread of execution: a call stack of frames, the most recent last.
pub struct JavaThread<'a> {
    stack: Vec<Frame<'a>>,
}

impl<'a> JavaThread<'a> {
    /// The call stack, most recent activation last.
    pub closed spec fn frames(&self) -> Seq<Frame<'a>> {
        self.stack@
    }

    /// A thread whose call stack holds one activation of `method`.
    pub fn new(constant_pool: &'a ConstantPool, method: &Method) -> (t: JavaThread<'a>)
        ensures
            t.frames().len() == 1,
            t.frames()[0].constant_pool == constant_pool,
            t.frames()[0].starts(method@),
    {
        let mut stack: Vec<Frame<'a>> = Vec::new();
        stack.push(Frame::new(constant_pool, method));
        JavaThread { stack }
    }

    /// The number of activations on the call stack.
    pub fn depth(&self) -> (n: usize)
        ensures
            n == self.frames().len(),
    {
        self.stack.len()
    }

    /// Pops and runs frames until the call stack is empty. A call that needs
    /// a new activation stops the thread with `UnsupportedCall`; any other
    /// error stops it too.
    pub fn run(&mut self) -> (r: Result<(), FrameError>)
        ensures
            r == spec_run_frames(old(self).frames()),
            r is Ok ==> final(self).frames().len() == 0,
    {
        while self.stack.len() > 0
            invariant
                spec_run_frames(old(self).frames()) == spec_run_frames(self.frames()),
            decreases self.stack@.len(),
        {
            let ghost frames = self.stack@;
            let mut current = self.stack.pop().unwrap();
            assert(frames.drop_last() =~= self.stack@);
            match current.execute()? {
                FrameResult::NextFrame(i) => return Err(FrameError::UnsupportedCall(i)),
                FrameResult::Finished => {},
            }
        }
        Ok(())
    }
}

} // verus!
