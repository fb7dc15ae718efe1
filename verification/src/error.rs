//! The error that the tools report: a message for the user.

use vstd::prelude::*;

verus! {

#[derive(Debug)]
pub struct MyError {
    pub error_message: String,
}

impl View for MyError {
    type V = Seq<char>;

    open spec fn view(&self) -> Seq<char> {
        self.error_message@
    }
}

impl MyError {
    /// The message itself.
    pub fn to_string(&self) -> (text: String)
        ensures
            text@ == self@,
    {
        self.error_message.clone()
    }
}

pub type MyResult<T> = Result<T, MyError>;

} // verus!
