use vstd::prelude::*;
use crate::Error;

verus! {

/// A last-in-first-out stack of signed 32-bit integers, used for the data
/// stack and the return stack of the runtime. The `err` field is the error
/// kind reported when an element is needed and the stack is empty.
pub struct Stack {
    data: Vec<i32>,
    err: Error,
}

impl View for Stack {
    type V = Seq<i32>;

    closed spec fn view(&self) -> Seq<i32> {
        self.data@
    }
}

impl Stack {
    /// The error kind this stack reports from `last`.
    pub closed spec fn err_kind(&self) -> Error {
        self.err
    }

    pub fn new(err: Error) -> (r: Self)
        ensures
            r@ == Seq::<i32>::empty(),
            r.err_kind() == err,
    {
        Stack { data: Vec::new(), err }
    }

    pub fn push(&mut self, data: i32)
        ensures
            final(self)@ == old(self)@.push(data),
            final(self).err_kind() == old(self).err_kind(),
    {
        self.data.push(data);
    }

    /// Pops the top element; underflow is reported as `DataStackUnderflow`.
    pub fn pop(&mut self) -> (r: Result<i32, Error>)
        ensures
            final(self).err_kind() == old(self).err_kind(),
            old(self)@.len() == 0 ==> (r == Err::<i32, Error>(Error::DataStackUnderflow)
                && final(self)@ == old(self)@),
            old(self)@.len() > 0 ==> (r == Ok::<i32, Error>(old(self)@.last())
                && final(self)@ == old(self)@.drop_last()),
    {
        match self.data.pop() {
            Some(v) => Ok(v),
            None => Err(Error::DataStackUnderflow),
        }
    }

    /// Reads the top element without removing it.
    pub fn last(&self) -> (r: Result<i32, Error>)
        ensures
            self@.len() == 0 ==> r == Err::<i32, Error>(self.err_kind()),
            self@.len() > 0 ==> r == Ok::<i32, Error>(self@.last()),
    {
        if self.data.len() == 0 {
            Err(self.err)
        } else {
            Ok(self.data[self.data.len() - 1])
        }
    }

    /// Reads the element `n` below the top; `n == 0` reads the top.
    pub fn peek_back(&self, n: usize) -> (r: Result<i32, Error>)
        ensures
            n < self@.len() ==> r == Ok::<i32, Error>(self@[self@.len() - 1 - n]),
            n >= self@.len() ==> r == Err::<i32, Error>(Error::DataStackUnderflow),
    {
        let len = self.data.len();
        if n < len {
            Ok(self.data[len - 1 - n])
        } else {
            Err(Error::DataStackUnderflow)
        }
    }

    /// Removes and returns the element `n` below the top; `n == 0` removes the top.
    pub fn pop_back(&mut self, n: usize) -> (r: Result<i32, Error>)
        ensures
            final(self).err_kind() == old(self).err_kind(),
            n < old(self)@.len() ==> (r == Ok::<i32, Error>(old(self)@[old(self)@.len() - 1 - n])
                && final(self)@ == old(self)@.remove(old(self)@.len() - 1 - n)),
            n >= old(self)@.len() ==> (r == Err::<i32, Error>(Error::DataStackUnderflow)
                && final(self)@ == old(self)@),
    {
        let len = self.data.len();
        if n < len {
            let v = self.data.remove(len - 1 - n);
            Ok(v)
        } else {
            Err(Error::DataStackUnderflow)
        }
    }

    pub fn len(&self) -> (r: usize)
        ensures
            r == self@.len(),
    {
        self.data.len()
    }

    /// Discards every element.
    pub fn clear(&mut self)
        ensures
            final(self)@ == Seq::<i32>::empty(),
            final(self).err_kind() == old(self).err_kind(),
    {
        self.data.clear();
    }
}

} // verus!
