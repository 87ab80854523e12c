//! Method descriptions: the categories, the bibliographic references and the
//! defaults a method file carries, and the errors reading one can give.

pub mod additive;
pub mod library;
pub mod lmm;
pub mod rk;
pub mod rosenbrock;

use vstd::prelude::*;
use vstd::string::StrSliceExecFns;
use crate::text::chars_of;

verus! {

/// Broad category a method belongs to. Decides which stepper runs it.
#[derive(Copy, Clone, Debug, PartialEq, Eq, Structural)]
pub enum MethodClass {
    RungeKutta,
    LinearMultistep,
    Rosenbrock,
}

/// Bibliographic reference including the DOI of the original publication.
#[derive(Clone, Debug, Default)]
pub struct Reference {
    pub authors: Option<String>,
    pub title: Option<String>,
    pub year: Option<u32>,
    pub source: Option<String>,
    pub doi: Option<String>,
    pub url: Option<String>,
}

/// The characters of an optional string.
pub open spec fn text_of(s: Option<String>) -> Option<Seq<char>> {
    match s {
        Some(t) => Some(t@),
        None => None,
    }
}

/// The resolver every DOI link goes through.
pub open spec fn doi_resolver() -> Seq<char> {
    "https://doi.org/"@
}

/// The text with every leading copy of `prefix` removed, as
/// `str::trim_start_matches` does with a string pattern.
pub open spec fn strip_prefixes(s: Seq<char>, prefix: Seq<char>) -> Seq<char>
    decreases s.len(),
{
    if prefix.len() > 0 && prefix.len() <= s.len() && s.take(prefix.len() as int) == prefix {
        strip_prefixes(s.skip(prefix.len() as int), prefix)
    } else {
        s
    }
}

/// The link a reference resolves to: its DOI through the resolver, written
/// with or without the resolver already in front, or else its URL.
pub open spec fn reference_link(doi: Option<Seq<char>>, url: Option<Seq<char>>) -> Option<Seq<char>> {
    match doi {
        Some(d) => Some(doi_resolver() + strip_prefixes(d, doi_resolver())),
        None => url,
    }
}

/// Whether `s` holds `prefix` at character `at`.
fn holds_at(s: &Vec<char>, at: usize, prefix: &Vec<char>) -> (r: bool)
    requires
        at <= s@.len(),
    ensures
        r == (prefix@.len() <= s@.len() - at && s@.skip(at as int).take(prefix@.len() as int) == prefix@),
{
    if prefix.len() > s.len() - at {
        return false;
    }
    let mut i: usize = 0;
    while i < prefix.len()
        invariant
            i <= prefix@.len(),
            at + prefix@.len() <= s@.len(),
            s@.len() <= usize::MAX,
            forall|j: int| 0 <= j < i ==> #[trigger] s@[at + j] == prefix@[j],
        decreases prefix@.len() - i,
    {
        if s[at + i] != prefix[i] {
            assert(s@.skip(at as int).take(prefix@.len() as int)[i as int] != prefix@[i as int]);
            return false;
        }
        i = i + 1;
    }
    assert forall|j: int| 0 <= j < prefix@.len() implies s@.skip(at as int).take(prefix@.len() as int)[j] == prefix@[j] by {
        assert(s@[at + j] == prefix@[j]);
    }
    assert(s@.skip(at as int).take(prefix@.len() as int) =~= prefix@);
    true
}

impl Reference {
    /// Resolvable link, preferring the DOI.
    pub fn link(&self) -> (link: Option<String>)
        ensures
            link matches Some(l) ==> reference_link(
                text_of(self.doi),
                text_of(self.url),
            ) == Some(l@),
            link is None <==> reference_link(
                text_of(self.doi),
                text_of(self.url),
            ) is None,
    {
        match &self.doi {
            Some(doi) => {
                proof {
                    reveal_strlit("https://doi.org/");
                }
                let text = chars_of(doi.as_str());
                let resolver = chars_of("https://doi.org/");
                let mut at: usize = 0;
                assert(text@.skip(0) =~= text@);
                while at < text.len() && holds_at(&text, at, &resolver)
                    invariant
                        at <= text@.len(),
                        text@ == doi@,
                        resolver@ == doi_resolver(),
                        resolver@.len() > 0,
                        strip_prefixes(doi@, doi_resolver()) == strip_prefixes(text@.skip(at as int), doi_resolver()),
                    decreases text@.len() - at,
                {
                    assert(text@.skip(at as int).skip(resolver@.len() as int) =~= text@.skip(at + resolver@.len()));
                    at = at + resolver.len();
                }
                proof {
                    if at == text@.len() {
                        assert(text@.skip(at as int).len() == 0);
                    }
                }
                let rest = doi.as_str().substring_char(at, doi.as_str().unicode_len());
                let mut out = String::from_str("https://doi.org/");
                out.append(rest);
                proof {
                    assert(rest@ =~= text@.skip(at as int));
                }
                Some(out)
            },
            None => match &self.url {
                Some(url) => Some(url.clone()),
                None => None,
            },
        }
    }
}

/// Suggested defaults a method ships with.
#[derive(Clone, Debug, Default)]
pub struct MethodDefaults {
    /// Error controller preset name, see `control::ControllerPreset`.
    pub controller: Option<String>,
    /// Nonlinear solver name, see `nonlinear::SolverKind`.
    pub nonlinear_solver: Option<String>,
}

/// Why a method could not be read.
#[derive(Debug)]
pub enum MethodError {
    Parse(String),
    Invalid(String),
}

/// A method file is invalid for `reason`, reported under the method's id.
pub fn invalid(id: &str, reason: &str) -> (e: MethodError)
    ensures
        e matches MethodError::Invalid(m) && m@ == id@ + ": "@ + reason@,
{
    let mut m = String::from_str(id);
    m.append(": ");
    m.append(reason);
    MethodError::Invalid(m)
}

/// Whether a method of this class carries exactly the coefficient block the
/// class calls for: a tableau, a multistep description or a Rosenbrock
/// tableau, and no other.
pub open spec fn blocks_match(class: MethodClass, tableau: bool, multistep: bool, rosenbrock: bool) -> bool {
    match class {
        MethodClass::RungeKutta => tableau && !multistep && !rosenbrock,
        MethodClass::LinearMultistep => !tableau && multistep && !rosenbrock,
        MethodClass::Rosenbrock => !tableau && !multistep && rosenbrock,
    }
}

/// Check that the method `id` of this class carries the coefficient block
/// its class calls for, and no other.
pub fn check_blocks(id: &str, class: MethodClass, tableau: bool, multistep: bool, rosenbrock: bool) -> (r:
    Result<(), MethodError>)
    ensures
        r is Ok <==> blocks_match(class, tableau, multistep, rosenbrock),
        r matches Err(MethodError::Invalid(m)) ==> m@ == id@ + ": "@
            + "the class and the coefficient block do not match"@,
        !(r matches Err(MethodError::Parse(_))),
{
    let fits = match class {
        MethodClass::RungeKutta => tableau && !multistep && !rosenbrock,
        MethodClass::LinearMultistep => !tableau && multistep && !rosenbrock,
        MethodClass::Rosenbrock => !tableau && !multistep && rosenbrock,
    };
    if fits {
        Ok(())
    } else {
        Err(invalid(id, "the class and the coefficient block do not match"))
    }
}

} // verus!
