use vstd::prelude::*;

verus! {

/// Protocol version that the metadata service must report.
pub const API_VERSION: i64 = 5;

/// Errors that end a resolution.
#[derive(Debug, Clone, PartialEq, Eq)]
pub enum ResolveError {
    /// The service reported another protocol version.
    WrongVersion(i64),
    /// The service reported another result type.
    WrongType(String),
    /// The remaining packages depend on each other; the name is one of them.
    CircularDependency(String),
    /// A single name does not fit in one request.
    NameTooLong(String),
    /// The computed order does not end with the root package.
    InconsistentOrder,
    /// The service could not be reached or refused the request.
    Transport(String),
    /// The answer could not be read as an info answer.
    MalformedResponse(String),
}

/// One package entry of the metadata service.
#[derive(Debug, Clone, PartialEq, Eq)]
pub struct PackageInfo {
    pub name: String,
    pub depends: Option<Vec<String>>,
    pub make_depends: Option<Vec<String>>,
}

/// One answer of the metadata service.
#[derive(Debug, Clone, PartialEq, Eq)]
pub struct InfoResponse {
    pub version: i64,
    pub type_field: String,
    pub resultcount: i64,
    pub results: Vec<PackageInfo>,
}

/// The text of each string.
pub open spec fn strings_view(v: Seq<String>) -> Seq<Seq<char>> {
    v.map_values(|s: String| s@)
}

/// The text of each string of an optional list; none when it is absent.
pub open spec fn opt_strings_view(v: Option<Vec<String>>) -> Seq<Seq<char>> {
    match v {
        Some(d) => strings_view(d@),
        None => Seq::empty(),
    }
}

/// A dependency that carries a version constraint such as `foo=1.2`.
pub open spec fn is_constrained(d: Seq<char>) -> bool {
    d.contains('=')
}

/// The result type tag of a multi-package info answer.
pub open spec fn multiinfo_tag() -> Seq<char> {
    seq!['m', 'u', 'l', 't', 'i', 'i', 'n', 'f', 'o']
}

impl PackageInfo {
    /// Run-time dependencies followed by build-time dependencies.
    pub open spec fn spec_depends(&self) -> Seq<Seq<char>> {
        opt_strings_view(self.depends) + opt_strings_view(self.make_depends)
    }

    /// All dependencies of the entry, run-time ones first.
    pub fn get_depends(&self) -> (r: Vec<String>)
        ensures
            strings_view(r@) == self.spec_depends(),
    {
        let mut deps: Vec<String> = Vec::new();
        append_all(&mut deps, &self.depends);
        append_all(&mut deps, &self.make_depends);
        proof {
            assert(strings_view(deps@) =~= self.spec_depends());
        }
        deps
    }
}

fn append_all(deps: &mut Vec<String>, extra: &Option<Vec<String>>)
    ensures
        strings_view(final(deps)@) == strings_view(old(deps)@) + opt_strings_view(*extra),
{
    if let Some(d) = extra {
        let ghost start = strings_view(deps@);
        let mut i: usize = 0;
        while i < d.len()
            invariant
                i <= d@.len(),
                strings_view(deps@) =~= start + strings_view(d@.subrange(0, i as int)),
            decreases d@.len() - i,
        {
            let item = d[i].clone();
            proof {
                assert(d@.subrange(0, i + 1) =~= d@.subrange(0, i as int).push(d@[i as int]));
            }
            let ghost before = deps@;
            deps.push(item);
            i += 1;
            proof {
                assert(strings_view(deps@) =~= strings_view(before).push(item@));
                assert(strings_view(d@.subrange(0, i as int)) =~= strings_view(
                    d@.subrange(0, i - 1),
                ).push(item@));
            }
        }
        proof {
            assert(d@.subrange(0, d@.len() as int) =~= d@);
        }
    } else {
        proof {
            assert(strings_view(deps@) + opt_strings_view(*extra) =~= strings_view(deps@));
        }
    }
}

impl InfoResponse {
    /// Checks the protocol version and the result type of the answer.
    pub fn validate(&self) -> (r: Result<(), ResolveError>)
        ensures
            r is Ok <==> (self.version == API_VERSION && self.type_field@ == multiinfo_tag()),
            self.version != API_VERSION ==> r == Err::<(), ResolveError>(
                ResolveError::WrongVersion(self.version),
            ),
            self.version == API_VERSION && self.type_field@ != multiinfo_tag() ==> (r matches Err(
                ResolveError::WrongType(t),
            ) && t@ == self.type_field@),
    {
        if self.version != API_VERSION {
            return Err(ResolveError::WrongVersion(self.version));
        }
        let tag = "multiinfo".to_owned();
        proof {
            reveal_strlit("multiinfo");
            assert(tag@ =~= multiinfo_tag());
        }
        if self.type_field != tag {
            return Err(ResolveError::WrongType(self.type_field.clone()));
        }
        Ok(())
    }
}

/// Whether a dependency string carries a version constraint.
pub fn is_constrained_dep(d: &String) -> (r: bool)
    ensures
        r == is_constrained(d@),
{
    let s = d.as_str();
    let n = s.unicode_len();
    let mut i: usize = 0;
    while i < n
        invariant
            n == s@.len(),
            s@ == d@,
            i <= n,
            forall|k: int| 0 <= k < i ==> s@[k] != '=',
        decreases n - i,
    {
        if s.get_char(i) == '=' {
            return true;
        }
        i += 1;
    }
    false
}

} // verus!
