use vstd::prelude::*;

verus! {

/// An error carrying a description and, possibly, the description of the
/// error that caused it.
pub struct StrError {
    description: String,
    cause: Option<String>,
}

pub ghost struct StrErrorV {
    pub description: Seq<char>,
    pub cause: Option<Seq<char>>,
}

impl View for StrError {
    type V = StrErrorV;

    closed spec fn view(&self) -> StrErrorV {
        StrErrorV {
            description: self.description@,
            cause: match self.cause {
                Some(ref c) => Some(c@),
                None => None,
            },
        }
    }
}

pub type StrResult<T> = Result<T, StrError>;

impl StrError {
    pub fn new(description: String, cause: Option<String>) -> (r: StrError)
        ensures
            r@.description == description@,
            r@.cause == match cause {
                Some(c) => Some(c@),
                None => None::<Seq<char>>,
            },
    {
        StrError { description, cause }
    }

    pub fn description(&self) -> (r: &String)
        ensures
            r@ == self@.description,
    {
        &self.description
    }

    pub fn cause(&self) -> (r: Option<&String>)
        ensures
            match r {
                Some(c) => self@.cause == Some(c@),
                None => self@.cause is None,
            },
    {
        match self.cause {
            Some(ref c) => Some(c),
            None => None,
        }
    }

    /// The printable form: the description, and the cause after it when
    /// there is one.
    pub fn message(&self) -> (r: String)
        ensures
            r@ == match self@.cause {
                Some(c) => self@.description + ": "@ + c,
                None => self@.description,
            },
    {
        let mut out = String::new();
        out.append(self.description.as_str());
        match self.cause {
            Some(ref c) => {
                out.append(": ");
                out.append(c.as_str());
                proof {
                    assert(out@ == Seq::<char>::empty() + self@.description + ": "@
                        + self@.cause.unwrap());
                    assert(Seq::<char>::empty() + self@.description + ": "@ + self@.cause.unwrap()
                        =~= self@.description + ": "@ + self@.cause.unwrap());
                }
            },
            None => {
                proof {
                    assert(Seq::<char>::empty() + self@.description =~= self@.description);
                }
            },
        }
        out
    }
}

} // verus!
