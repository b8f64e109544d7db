//! Per-frame resource sets for frames in flight.
//!
//! A `FrameSet` holds one value per frame in flight — a fixed, small number
//! of frames rendered ahead — and is indexed by the frame counter modulo
//! that depth.

use vstd::prelude::*;

verus! {

/// How many frames may be in flight at once: the depth of every frame-
/// indexed resource set.
pub const MAX_FRAMES_IN_FLIGHT: usize = 2;

/// One value per frame in flight.
#[derive(Debug)]
pub struct FrameSet<T> {
    slots: Vec<T>,
}

impl<T> View for FrameSet<T> {
    type V = Seq<T>;

    closed spec fn view(&self) -> Seq<T> {
        self.slots@
    }
}

impl<T> FrameSet<T> {
    /// The set holds exactly one value per frame in flight.
    pub open spec fn wf(&self) -> bool {
        self@.len() == MAX_FRAMES_IN_FLIGHT
    }

    /// Builds a set by calling the factory once per frame index, in order.
    pub fn create_factory<F: Fn(usize) -> T>(f: F) -> (r: FrameSet<T>)
        requires
            forall|i: usize| i < MAX_FRAMES_IN_FLIGHT ==> call_requires(f, (i,)),
        ensures
            r.wf(),
            forall|i: int|
                0 <= i < MAX_FRAMES_IN_FLIGHT ==> call_ensures(f, (i as usize,), #[trigger] r@[i]),
    {
        let mut slots: Vec<T> = Vec::new();
        let mut i: usize = 0;
        while i < MAX_FRAMES_IN_FLIGHT
            invariant
                i <= MAX_FRAMES_IN_FLIGHT,
                slots@.len() == i,
                forall|i: usize| i < MAX_FRAMES_IN_FLIGHT ==> call_requires(f, (i,)),
                forall|j: int| 0 <= j < i ==> call_ensures(f, (j as usize,), #[trigger] slots@[j]),
            decreases MAX_FRAMES_IN_FLIGHT - i,
        {
            let v = f(i);
            slots.push(v);
            i = i + 1;
        }
        FrameSet { slots }
    }

    /// Wraps one value per frame, in frame order.
    pub fn from_vec(values: Vec<T>) -> (r: FrameSet<T>)
        requires
            values@.len() == MAX_FRAMES_IN_FLIGHT,
        ensures
            r.wf(),
            r@ == values@,
    {
        FrameSet { slots: values }
    }

    /// The frame's value.
    pub fn get(&self, index: usize) -> (r: &T)
        requires
            self.wf(),
            index < MAX_FRAMES_IN_FLIGHT,
        ensures
            *r == self@[index as int],
    {
        &self.slots[index]
    }

    /// Replaces the frame's value.
    pub fn set(&mut self, index: usize, value: T)
        requires
            old(self).wf(),
            index < MAX_FRAMES_IN_FLIGHT,
        ensures
            final(self).wf(),
            final(self)@ == old(self)@.update(index as int, value),
    {
        self.slots[index] = value;
    }

    /// All the frames' values, in frame order.
    pub fn iter(&self) -> (r: &[T])
        ensures
            r@ == self@,
    {
        self.slots.as_slice()
    }
}

impl<T, E> FrameSet<Result<T, E>> {
    /// Unwraps a set of fallible values: the set of successes, or the first
    /// failure.
    pub fn promote_errors(self) -> (r: Result<FrameSet<T>, E>)
        requires
            self.wf(),
        ensures
            match r {
                Ok(fs) => {
                    &&& fs.wf()
                    &&& forall|i: int|
                        0 <= i < MAX_FRAMES_IN_FLIGHT ==> (#[trigger] self@[i]) is Ok && fs@[i]
                            == self@[i]->Ok_0
                },
                Err(e) => exists|i: int|
                    0 <= i < MAX_FRAMES_IN_FLIGHT && (#[trigger] self@[i]) is Err && e
                        == self@[i]->Err_0 && (forall|j: int| 0 <= j < i ==> self@[j] is Ok),
            },
    {
        let ghost orig = self@;
        let FrameSet { slots } = self;
        let mut slots = slots;
        let mut out: Vec<T> = Vec::new();
        let mut err: Option<E> = None;
        let ghost mut erri: int = 0;
        let mut i: usize = 0;
        while i < MAX_FRAMES_IN_FLIGHT
            invariant
                i <= MAX_FRAMES_IN_FLIGHT,
                orig.len() == MAX_FRAMES_IN_FLIGHT,
                err is None ==> {
                    &&& slots@ == orig.skip(i as int)
                    &&& out@.len() == i
                    &&& forall|j: int| 0 <= j < i ==> (#[trigger] orig[j]) is Ok && out@[j]
                        == orig[j]->Ok_0
                },
                err is Some ==> {
                    &&& 0 <= erri < orig.len()
                    &&& (#[trigger] orig[erri]) is Err
                    &&& err->Some_0 == orig[erri]->Err_0
                    &&& forall|j: int| 0 <= j < erri ==> orig[j] is Ok
                },
            decreases MAX_FRAMES_IN_FLIGHT - i,
        {
            if err.is_none() {
                let x = slots.remove(0);
                proof {
                    assert(x == orig[i as int]);
                    assert(orig.skip(i as int).remove(0) =~= orig.skip(i as int + 1));
                }
                match x {
                    Ok(v) => {
                        out.push(v);
                    },
                    Err(e) => {
                        proof {
                            erri = i as int;
                        }
                        err = Some(e);
                    },
                }
            }
            i = i + 1;
        }
        match err {
            Some(e) => {
                proof {
                    assert((#[trigger] self@[erri]) is Err && e == self@[erri]->Err_0 && (
                    forall|j: int| 0 <= j < erri ==> self@[j] is Ok));
                }
                Err(e)
            },
            None => Ok(FrameSet { slots: out }),
        }
    }
}

} // verus!
