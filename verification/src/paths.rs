//! Locating the configuration file: the candidate list in lookup order
//! (the explicit environment path before the home-directory default) and
//! the choice of the first candidate that is present on disk.

use vstd::prelude::*;
use vstd::string::StringExecFns;

verus! {

/// Relies on `std::path::Path::exists`: whether a file-system entry is at
/// the path now. The answer depends on the disk and may differ between
/// calls, so nothing is promised of it.
#[verifier::external_body]
fn path_exists(p: &str) -> bool {
    std::path::Path::new(p).exists()
}

/// Relies on `home::home_dir`: the home directory the platform reports
/// for the current user, if any. The answer depends on the environment,
/// so nothing is promised of it.
#[verifier::external_body]
fn home_dir_string() -> Option<String> {
    match home::home_dir() {
        Some(d) => match d.to_str() {
            Some(s) => Some(s.to_string()),
            None => None,
        },
        None => None,
    }
}

/// Joins a reported home directory with the configuration file name:
/// a path exactly when a home is known, and then exactly that home
/// followed by `/.expert-spoon.yaml`.
pub fn default_path_of(home: Option<String>) -> (r: Option<String>)
    ensures
        r is Some <==> home is Some,
        r matches Some(p) ==> home matches Some(h) && p@ == h@ + "/.expert-spoon.yaml"@,
{
    match home {
        Some(h) => {
            let ghost hh = h@;
            let mut p = h;
            p.append("/.expert-spoon.yaml");
            proof {
                assert(p@ == hh + "/.expert-spoon.yaml"@);
            }
            Some(p)
        },
        None => None,
    }
}

/// The default configuration path: the file `.expert-spoon.yaml` under
/// the home directory, when the platform reports one. Which home that
/// is depends on the environment; the join itself is `default_path_of`.
pub fn default_path() -> (r: Option<String>)
    ensures
        r matches Some(p) ==> exists|h: Seq<char>| p@ == h + "/.expert-spoon.yaml"@,
{
    let home = home_dir_string();
    let ghost gh = home;
    let r = default_path_of(home);
    proof {
        if r is Some {
            let p = r->Some_0;
            let h = gh->Some_0;
            assert(p@ == h@ + "/.expert-spoon.yaml"@);
        }
    }
    r
}

/// The candidates in lookup order: the explicit environment path first,
/// then the default path, each only when known.
pub open spec fn candidates(env: Option<Seq<char>>, def: Option<Seq<char>>) -> Seq<Seq<char>> {
    (match env {
        Some(e) => seq![e],
        None => Seq::empty(),
    }) + (match def {
        Some(d) => seq![d],
        None => Seq::empty(),
    })
}

/// Builds the candidate list in lookup order.
pub fn candidate_paths(env_path: Option<String>, default: Option<String>) -> (r: Vec<String>)
    ensures
        r.deep_view() == candidates(
            match env_path {
                Some(e) => Some(e@),
                None => None,
            },
            match default {
                Some(d) => Some(d@),
                None => None,
            },
        ),
{
    let ghost ev = match env_path {
        Some(ref e) => Some(e@),
        None => None,
    };
    let ghost dv = match default {
        Some(ref d) => Some(d@),
        None => None,
    };
    let mut r: Vec<String> = Vec::new();
    if let Some(e) = env_path {
        r.push(e);
    }
    if let Some(d) = default {
        r.push(d);
    }
    proof {
        assert(r.deep_view() =~~= candidates(ev, dv));
    }
    r
}

/// The index of the first present candidate, if any.
pub open spec fn selected(present: Seq<bool>) -> Option<int>
    decreases present.len(),
{
    if present.len() == 0 {
        None
    } else if present[0] {
        Some(0)
    } else {
        match selected(present.skip(1)) {
            Some(i) => Some(i + 1),
            None => None,
        }
    }
}

/// The path the lookup chooses, given which candidates are present.
pub open spec fn chosen_path(paths: Seq<Seq<char>>, present: Seq<bool>) -> Option<Seq<char>> {
    match selected(present) {
        Some(i) => if 0 <= i < paths.len() {
            Some(paths[i])
        } else {
            None
        },
        None => None,
    }
}

pub proof fn lemma_selected(present: Seq<bool>)
    ensures
        match selected(present) {
            Some(i) => 0 <= i < present.len() && present[i] && forall|j: int|
                0 <= j < i ==> !present[j],
            None => forall|j: int| 0 <= j < present.len() ==> !present[j],
        },
    decreases present.len(),
{
    if present.len() > 0 && !present[0] {
        lemma_selected(present.skip(1));
        match selected(present.skip(1)) {
            Some(i) => {
                assert(present[i + 1] == present.skip(1)[i]);
                assert forall|j: int| 0 <= j < i + 1 implies !present[j] by {
                    if j > 0 {
                        assert(present.skip(1)[j - 1] == present[j]);
                    }
                }
            },
            None => {
                assert forall|j: int| 0 <= j < present.len() implies !present[j] by {
                    if j > 0 {
                        assert(present.skip(1)[j - 1] == present[j]);
                    }
                }
            },
        }
    }
}

/// Chooses the first path whose presence flag is set: the pure half of
/// the lookup, verified for every outcome of the disk checks.
pub fn select_path(paths: &Vec<String>, present: &Vec<bool>) -> (r: Option<String>)
    requires
        paths@.len() == present@.len(),
    ensures
        match r {
            Some(p) => chosen_path(paths.deep_view(), present@) == Some(p@),
            None => chosen_path(paths.deep_view(), present@) is None,
        },
{
    let mut i: usize = 0;
    while i < paths.len()
        invariant
            i <= paths@.len(),
            paths@.len() == present@.len(),
            forall|j: int| 0 <= j < i ==> !present@[j],
        decreases paths@.len() - i,
    {
        if present[i] {
            proof {
                lemma_selected(present@);
                match selected(present@) {
                    Some(k) => {
                        assert(k == i as int);
                        assert(paths.deep_view()[i as int] == paths@[i as int]@);
                    },
                    None => {
                        assert(false);
                    },
                }
            }
            return Some(paths[i].clone());
        }
        i = i + 1;
    }
    proof {
        lemma_selected(present@);
    }
    None
}

/// Finds the first of the given paths that is present on disk. Which one
/// that is depends on the disk, so only membership is promised; the
/// choice rule itself is stated and proved of `chosen_path`.
pub fn find_config(paths: &Vec<String>) -> (r: Option<String>)
    ensures
        r matches Some(p) ==> exists|i: int|
            0 <= i < paths@.len() && p@ == #[trigger] paths@[i]@,
{
    let mut present: Vec<bool> = Vec::new();
    let mut i: usize = 0;
    while i < paths.len()
        invariant
            i <= paths@.len(),
            present@.len() == i,
        decreases paths@.len() - i,
    {
        let b = path_exists(paths[i].as_str());
        present.push(b);
        i = i + 1;
    }
    let r = select_path(paths, &present);
    proof {
        if r is Some {
            lemma_selected(present@);
            match selected(present@) {
                Some(k) => {
                    assert(paths.deep_view()[k] == paths@[k]@);
                },
                None => {},
            }
        }
    }
    r
}

/// The environment path is chosen over the default whenever it is
/// present, whether or not the default is present too.
pub proof fn theorem_env_path_preferred(e: Seq<char>, d: Seq<char>, def_present: bool)
    ensures
        chosen_path(candidates(Some(e), Some(d)), seq![true, def_present]) == Some(e),
{
    let present = seq![true, def_present];
    assert(selected(present) == Some(0int));
    assert(candidates(Some(e), Some(d))[0] == e);
}

/// When no candidate is present, no path is chosen, and loading fails.
pub proof fn theorem_no_path_no_config(paths: Seq<Seq<char>>, present: Seq<bool>)
    requires
        forall|j: int| 0 <= j < present.len() ==> !present[j],
    ensures
        chosen_path(paths, present) is None,
{
    lemma_selected(present);
    match selected(present) {
        Some(i) => {
            assert(present[i]);
            assert(false);
        },
        None => {},
    }
}

} // verus!
