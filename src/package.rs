use vstd::prelude::*;

use crate::aur::strings_view;

verus! {

/// Why a package directory cannot be loaded.
#[derive(Debug, Clone, PartialEq, Eq)]
pub enum PackageError {
    /// The settings name an upstream kind that is not known.
    InvalidUpstream(String),
    /// No package has this name.
    NoSuchPackage(String),
}

/// The settings file of a package: where it comes from upstream, and its
/// history, each as key and value pairs.
#[derive(Debug, Clone, PartialEq, Eq)]
pub struct Config {
    pub upstream: Option<Vec<(String, String)>>,
    pub history: Option<Vec<(String, String)>>,
}

/// The upstream kinds that settings may name.
pub open spec fn is_valid_upstream(k: Seq<char>) -> bool {
    k == seq!['p', 'y', 'p', 'i'] || k == seq!['g', 'i', 't', 'h', 'u', 'b']
}

/// The keys of the upstream settings, in order.
pub open spec fn upstream_keys(c: Config) -> Seq<Seq<char>> {
    match c.upstream {
        Some(v) => v@.map_values(|e: (String, String)| e.0@),
        None => Seq::empty(),
    }
}

fn is_valid_upstream_key(k: &String) -> (r: bool)
    ensures
        r == is_valid_upstream(k@),
{
    let pypi = "pypi".to_owned();
    let github = "github".to_owned();
    proof {
        reveal_strlit("pypi");
        reveal_strlit("github");
        assert(pypi@ =~= seq!['p', 'y', 'p', 'i']);
        assert(github@ =~= seq!['g', 'i', 't', 'h', 'u', 'b']);
    }
    *k == pypi || *k == github
}

/// Every upstream key of the settings is a known kind.
pub open spec fn config_is_valid(c: Config) -> bool {
    forall|i: int|
        0 <= i < upstream_keys(c).len() ==> is_valid_upstream(#[trigger] upstream_keys(c)[i])
}

impl Config {
    /// Settings with neither upstream nor history.
    pub fn empty() -> (r: Config)
        ensures
            r.upstream is None,
            r.history is None,
    {
        Config { upstream: None, history: None }
    }

    /// Checks that every upstream key is a known kind; the error names the
    /// first that is not.
    pub fn validate(&self) -> (r: Result<(), PackageError>)
        ensures
            r is Ok <==> config_is_valid(*self),
            r matches Err(e) ==> (e matches PackageError::InvalidUpstream(k) && exists|i: int|
                0 <= i < upstream_keys(*self).len() && upstream_keys(*self)[i] == k@
                    && !is_valid_upstream(k@)),
    {
        if let Some(dict) = &self.upstream {
            let ghost keys = upstream_keys(*self);
            proof {
                assert(keys == dict@.map_values(|e: (String, String)| e.0@));
            }
            let mut i: usize = 0;
            while i < dict.len()
                invariant
                    keys == dict@.map_values(|e: (String, String)| e.0@),
                    keys == upstream_keys(*self),
                    i <= dict@.len(),
                    forall|u: int| 0 <= u < i ==> is_valid_upstream(#[trigger] keys[u]),
                decreases dict@.len() - i,
            {
                proof {
                    assert(keys[i as int] == dict@[i as int].0@);
                }
                if !is_valid_upstream_key(&dict[i].0) {
                    let k = dict[i].0.clone();
                    proof {
                        assert(keys[i as int] == k@);
                    }
                    return Err(PackageError::InvalidUpstream(k));
                }
                i += 1;
            }
        }
        Ok(())
    }
}

/// The ignore list of a namcap ignore file's text, if there is one.
pub open spec fn ignore_lines(t: Option<String>) -> Seq<Seq<char>> {
    match t {
        Some(t) => text_lines(t@),
        None => Seq::empty(),
    }
}

/// A package of the local collection: its name and the namcap checks it
/// ignores.
#[derive(Debug)]
pub struct Package {
    name: String,
    namcap_ignores: Vec<String>,
}

/// Name and ignored namcap checks of a package.
pub struct PackageView {
    pub name: Seq<char>,
    pub namcap_ignores: Seq<Seq<char>>,
}

impl View for Package {
    type V = PackageView;

    closed spec fn view(&self) -> PackageView {
        PackageView { name: self.name@, namcap_ignores: strings_view(self.namcap_ignores@) }
    }
}

impl Package {
    /// A package from its directory's name, its settings if it has a
    /// settings file, and the text of its namcap ignore file if it has one.
    pub fn from_dir(dir_name: &str, config: Option<Config>, namcap_ignore: Option<String>) -> (r:
        Result<Package, PackageError>)
        ensures
            r is Ok <==> (config matches Some(c) ==> config_is_valid(c)),
            r matches Ok(p) ==> (p@.name == dir_name@ && p@.namcap_ignores == ignore_lines(
                namcap_ignore,
            )),
            r matches Err(e) ==> (e matches PackageError::InvalidUpstream(k) && config matches Some(
                c,
            ) && upstream_keys(c).contains(k@) && !is_valid_upstream(k@)),
    {
        if let Some(c) = &config {
            match c.validate() {
                Err(e) => {
                    return Err(e);
                },
                Ok(()) => {},
            }
        }
        let namcap_ignores = match &namcap_ignore {
            Some(t) => split_lines(t.as_str()),
            None => Vec::new(),
        };
        let p = Package { name: dir_name.to_owned(), namcap_ignores };
        proof {
            if namcap_ignore is None {
                assert(strings_view(p.namcap_ignores@) =~= Seq::<Seq<char>>::empty());
            }
        }
        Ok(p)
    }

    /// The name of the package, which is its directory's name.
    pub fn name(&self) -> (r: &String)
        ensures
            r@ == self@.name,
    {
        &self.name
    }

    /// The name of the package, which is its directory's name.
    pub fn get_name(&self) -> (r: &String)
        ensures
            r@ == self@.name,
    {
        &self.name
    }

    /// The namcap checks that the package ignores.
    pub fn namcap_ignores(&self) -> (r: &Vec<String>)
        ensures
            strings_view(r@) == self@.namcap_ignores,
    {
        &self.namcap_ignores
    }
}

/// The text of `s` up to its first `'\n'`, or all of it.
pub open spec fn first_line_end(s: Seq<char>) -> nat
    decreases s.len(),
{
    if s.len() == 0 {
        0
    } else if s[0] == '\n' {
        0
    } else {
        1 + first_line_end(s.drop_first())
    }
}

/// A line that ended in `'\n'` loses a `'\r'` before it.
pub open spec fn strip_cr(l: Seq<char>) -> Seq<char> {
    if l.len() > 0 && l.last() == '\r' {
        l.drop_last()
    } else {
        l
    }
}

/// The lines of a text: split at each `'\n'`, a `'\r'` before it dropped,
/// and no empty line after a final `'\n'`.
pub open spec fn text_lines(s: Seq<char>) -> Seq<Seq<char>>
    decreases s.len(),
{
    if s.len() == 0 {
        Seq::empty()
    } else {
        let e = first_line_end(s);
        if e < s.len() {
            seq![strip_cr(s.subrange(0, e as int))] + text_lines(s.subrange(e as int + 1, s.len() as int))
        } else {
            seq![s]
        }
    }
}

proof fn lemma_first_line_end(s: Seq<char>)
    ensures
        0 <= first_line_end(s) <= s.len(),
        forall|i: int| 0 <= i < first_line_end(s) ==> s[i] != '\n',
        first_line_end(s) < s.len() ==> s[first_line_end(s) as int] == '\n',
    decreases s.len(),
{
    if s.len() > 0 && s[0] != '\n' {
        lemma_first_line_end(s.drop_first());
        assert forall|i: int| 0 <= i < first_line_end(s) as int implies s[i] != '\n' by {
            if i > 0 {
                assert(s[i] == s.drop_first()[i - 1]);
            }
        }
    }
}

proof fn lemma_first_line_end_at(s: Seq<char>, e: int)
    requires
        0 <= e <= s.len(),
        forall|i: int| 0 <= i < e ==> s[i] != '\n',
        e < s.len() ==> s[e] == '\n',
    ensures
        first_line_end(s) == e,
{
    lemma_first_line_end(s);
    if first_line_end(s) < e {
        assert(s[first_line_end(s) as int] == '\n');
    }
    if first_line_end(s) > e {
        assert(s[e] != '\n');
    }
}

/// Splits a text into its lines.
pub fn split_lines(text: &str) -> (r: Vec<String>)
    ensures
        strings_view(r@) == text_lines(text@),
{
    let n = text.unicode_len();
    let mut out: Vec<String> = Vec::new();
    let mut start: usize = 0;
    proof {
        assert(text@.subrange(0, n as int) =~= text@);
        assert(strings_view(out@) =~= Seq::<Seq<char>>::empty());
        assert(Seq::<Seq<char>>::empty() + text_lines(text@) =~= text_lines(text@));
    }
    while start < n
        invariant
            n == text@.len(),
            start <= n,
            text_lines(text@) == strings_view(out@) + text_lines(
                text@.subrange(start as int, n as int),
            ),
        decreases n - start,
    {
        let mut end: usize = start;
        while end < n && text.get_char(end) != '\n'
            invariant
                n == text@.len(),
                start <= end <= n,
                forall|i: int| start <= i < end ==> text@[i] != '\n',
            decreases n - end,
        {
            end += 1;
        }
        let ghost rest = text@.subrange(start as int, n as int);
        proof {
            lemma_first_line_end_at(rest, end - start);
        }
        let ghost before = out@;
        if end < n {
            let mut stop: usize = end;
            if end > start && text.get_char(end - 1) == '\r' {
                stop = end - 1;
            }
            let line = text.substring_char(start, stop).to_owned();
            proof {
                assert(line@ =~= strip_cr(rest.subrange(0, end - start)));
            }
            out.push(line);
            proof {
                assert(rest.subrange(end - start + 1, rest.len() as int) =~= text@.subrange(
                    end + 1,
                    n as int,
                ));
                assert(strings_view(out@) =~= strings_view(before).push(line@));
                assert(strings_view(out@) + text_lines(text@.subrange(end + 1, n as int))
                    =~= strings_view(before) + text_lines(rest));
            }
            start = end + 1;
        } else {
            let line = text.substring_char(start, n).to_owned();
            out.push(line);
            proof {
                assert(strings_view(out@) =~= strings_view(before).push(line@));
                assert(text_lines(text@.subrange(n as int, n as int)) =~= Seq::<Seq<char>>::empty());
                assert(strings_view(out@) + text_lines(text@.subrange(n as int, n as int))
                    =~= strings_view(before) + text_lines(rest));
            }
            start = n;
        }
    }
    proof {
        assert(text_lines(text@.subrange(n as int, n as int)) =~= Seq::<Seq<char>>::empty());
        assert(strings_view(out@) + Seq::<Seq<char>>::empty() =~= strings_view(out@));
    }
    out
}

} // verus!
