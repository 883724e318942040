//! The failure kinds of a compilation.
use vstd::prelude::*;

verus! {

/// A failure of some phase of the compilation.
#[derive(Debug, Clone, PartialEq, Eq)]
pub enum CompilationError {
    /// A catch-all for invariant violations.
    GenericError(String),
    /// The resolver found no match for `src` from the directory `base`.
    ResolveError { src: String, base: String, cause: Option<String> },
    /// Loading the module `id` failed.
    LoadError { id: String, cause: Option<String> },
}

/// A line with the underlying cause, if there is one.
pub open spec fn cause_text(cause: Option<String>) -> Seq<char> {
    if cause is Some {
        "\nError: "@ + cause->Some_0@
    } else {
        Seq::empty()
    }
}

impl CompilationError {
    /// A message for people: the kind of failure, and what it concerns.
    pub fn message(&self) -> (r: String)
        ensures
            (*self matches CompilationError::GenericError(m) ==> r@ == m@),
            (*self matches CompilationError::ResolveError { src, base, cause } ==> r@ == "Can not resolve `"@ + src@
                + "` from `"@ + base@ + "`."@ + cause_text(cause)),
            (*self matches CompilationError::LoadError { id, cause } ==> r@ == "Load `"@ + id@ + "` failed."@
                + cause_text(cause)),
    {
        match self {
            CompilationError::GenericError(m) => m.clone(),
            CompilationError::ResolveError { src, base, cause } => {
                let mut r = String::from_str("Can not resolve `");
                r.append(src.as_str());
                r.append("` from `");
                r.append(base.as_str());
                r.append("`.");
                let ghost head = r@;
                match cause {
                    Some(c) => {
                        r.append("\nError: ");
                        r.append(c.as_str());
                    },
                    None => {
                        proof {
                            assert(r@ =~= head + Seq::<char>::empty());
                        }
                    },
                }
                r
            },
            CompilationError::LoadError { id, cause } => {
                let mut r = String::from_str("Load `");
                r.append(id.as_str());
                r.append("` failed.");
                let ghost head = r@;
                match cause {
                    Some(c) => {
                        r.append("\nError: ");
                        r.append(c.as_str());
                    },
                    None => {
                        proof {
                            assert(r@ =~= head + Seq::<char>::empty());
                        }
                    },
                }
                r
            },
        }
    }
}

} // verus!
