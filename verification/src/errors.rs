//! An error type, and what the `nothrow` attribute makes of a function that
//! returns a `Result`.

use vstd::prelude::*;

verus! {

/// An error carrying a message.
#[derive(Debug)]
pub struct MyError {
    pub message: String,
}

impl MyError {
    /// An error with the given message.
    pub fn new(msg: &str) -> (e: MyError)
        ensures
            e.message@ == msg@,
    {
        MyError { message: msg.to_string() }
    }

    /// The error's message, which is also its display text.
    pub fn description(&self) -> (d: &str)
        ensures
            d@ == self.message@,
    {
        self.message.as_str()
    }
}

/// What a `nothrow` function does with the result of its own body:
/// whether it failed, in which case the failure is reported ("got you"). The
/// function itself then returns `Ok(())` either way.
pub fn nothrow<T, E>(body: Result<T, E>) -> (caught: bool)
    ensures
        caught == body is Err,
{
    match body {
        Ok(_) => false,
        Err(_) => true,
    }
}

/// A value whose method fails, guarded by `nothrow`.
pub struct Demo;

impl Demo {
    /// The method's own body, before `nothrow` guards it: it always fails with `message`.
    fn throw_sth_body(&self, message: &str) -> (r: Result<(), MyError>)
        ensures
            r matches Err(e) && e.message@ == message@,
    {
        Err(MyError::new(message))
    }

    /// The `nothrow`-guarded method: its body fails with `message`, the failure
    /// is caught (the second component says it must be reported), and the call
    /// returns `Ok(())`.
    pub fn throw_sth(&self, message: &str) -> (r: (Result<(), MyError>, bool))
        ensures
            r.0 is Ok,
            r.1,
    {
        let caught = nothrow(self.throw_sth_body(message));
        (Ok(()), caught)
    }
}

} // verus!
