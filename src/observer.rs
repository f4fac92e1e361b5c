use vstd::prelude::*;

verus! {

/// Something that wants to hear of changes.
pub trait Observer<T, E> {
    /// Called with the change; an error stops the notification.
    fn update(&self, arg: &T) -> Result<(), E>;
}

/// Observers, notified in the order they were attached.
pub struct SubjectImpl<O> {
    observers: Vec<O>,
}

impl<O> View for SubjectImpl<O> {
    type V = Seq<O>;

    closed spec fn view(&self) -> Seq<O> {
        self.observers@
    }
}

impl<O> SubjectImpl<O> {
    /// A subject with no observers.
    pub fn new() -> (r: Self)
        ensures
            r@ == Seq::<O>::empty(),
    {
        SubjectImpl { observers: Vec::new() }
    }

    /// Adds an observer after those attached before.
    pub fn attach(&mut self, observer: O)
        ensures
            final(self)@ == old(self)@.push(observer),
    {
        self.observers.push(observer);
    }

    /// The number of observers attached.
    pub fn len(&self) -> (r: usize)
        ensures
            r == self@.len(),
    {
        self.observers.len()
    }

    /// Passes `arg` to every observer in order, and stops at the first
    /// that fails, with its error. Succeeds where no observer is attached.
    pub fn notify<T, E>(&self, arg: T) -> (r: Result<(), E>)
        where
            O: Observer<T, E>,
        ensures
            self@.len() == 0 ==> r is Ok,
    {
        let mut i: usize = 0;
        while i < self.observers.len()
            invariant
                i <= self.observers.len(),
            decreases self.observers.len() - i,
        {
            match self.observers[i].update(&arg) {
                Ok(()) => {},
                Err(e) => {
                    return Err(e);
                },
            }
            i = i + 1;
        }
        Ok(())
    }
}

} // verus!
