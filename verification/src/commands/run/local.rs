//! Decisions of `hm run --local`.
use vstd::prelude::*;
use crate::text::{joined, join_strings};

verus! {

/// Why no pipeline slug could be chosen.
#[derive(Debug)]
pub enum SlugError {
    /// The repo declares no pipeline.
    NoPipelines,
    /// The repo declares several pipelines and none was named.
    Ambiguous {
        /// The declared slugs, in declaration order.
        slugs: Vec<String>,
    },
}

/// The message of a slug error.
pub open spec fn slug_error_text(e: SlugError) -> Seq<char> {
    match e {
        SlugError::NoPipelines =>
            "no pipelines declared in this repo\n  hint: define one with `@hm.pipeline(\"slug\")` in `.harmont/pipeline.py`"@,
        SlugError::Ambiguous { slugs } =>
            "this repo declares pipelines: "@ + joined(slugs.deep_view(), ", "@) + "\n  \u{2192} pass one as the first argument"@,
    }
}

impl SlugError {
    /// The error's message, as printed to the user.
    pub fn message(&self) -> (s: String)
        ensures
            s@ == slug_error_text(*self),
    {
        match self {
            SlugError::NoPipelines => String::from_str(
                "no pipelines declared in this repo\n  hint: define one with `@hm.pipeline(\"slug\")` in `.harmont/pipeline.py`",
            ),
            SlugError::Ambiguous { slugs } => String::from_str("this repo declares pipelines: ")
                .concat(join_strings(slugs, ", ").as_str())
                .concat("\n  \u{2192} pass one as the first argument"),
        }
    }
}

/// The pipeline to run when none was named: the only declared one.
pub fn select_slug(declared: Vec<String>) -> (r: Result<String, SlugError>)
    ensures
        declared@.len() == 1 ==> (r matches Ok(s) && s@ == declared@[0]@),
        declared@.len() == 0 ==> r matches Err(SlugError::NoPipelines),
        declared@.len() > 1 ==> (r matches Err(SlugError::Ambiguous { slugs }) && slugs.deep_view() == declared.deep_view()),
{
    if declared.len() == 1 {
        Ok(declared[0].clone())
    } else if declared.len() == 0 {
        Err(SlugError::NoPipelines)
    } else {
        Err(SlugError::Ambiguous { slugs: declared })
    }
}

/// Number of chains to run at once: the requested number, else the
/// host's available parallelism, else 4.
pub fn effective_parallelism(requested: Option<usize>, available: Option<usize>) -> (n: usize)
    ensures
        n == match requested {
            Some(r) => r,
            None => match available {
                Some(a) => a,
                None => 4,
            },
        },
{
    match requested {
        Some(r) => r,
        None => match available {
            Some(a) => a,
            None => 4,
        },
    }
}

/// Whether the run prints the human banner: only for the `human` format.
pub fn shows_banner(format: &str) -> (b: bool)
    ensures
        b == (format@ == "human"@),
{
    crate::protocol::str_eq(format, "human")
}

} // verus!
