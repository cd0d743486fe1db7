//! Named locations and the files that hold their road data.

use std::path::Path;
use vstd::prelude::*;
use vstd::std_specs::cmp::PartialEqSpecImpl;
use vstd::string::StringExecFns;

verus! {

/// `part` stands in `text` from position `at` on.
pub open spec fn part_at(text: Seq<char>, part: Seq<char>, at: int) -> bool {
    0 <= at && at + part.len() <= text.len() && text.subrange(at, at + part.len()) == part
}

/// `part` stands somewhere in `text`.
pub open spec fn occurs_in(text: Seq<char>, part: Seq<char>) -> bool {
    exists|at: int| part_at(text, part, at)
}

/// `text` ends with `ending`.
pub open spec fn ends_in(text: Seq<char>, ending: Seq<char>) -> bool {
    part_at(text, ending, text.len() - ending.len())
}

/// `str::contains` for a string pattern. Trusted: it tells whether the
/// pattern stands somewhere in the text.
#[verifier::external_body]
pub(crate) fn contains(text: &str, part: &str) -> (found: bool)
    ensures
        found == occurs_in(text@, part@),
{
    text.contains(part)
}

/// `str::ends_with` for a string pattern. Trusted: it tells whether the
/// text ends with the pattern.
#[verifier::external_body]
pub(crate) fn ends_with(text: &str, ending: &str) -> (found: bool)
    ensures
        found == ends_in(text@, ending@),
{
    text.ends_with(ending)
}

/// The parent of a path as `std::path::Path::parent` gives it: the path
/// without its last component, or nothing for a path that has none.
pub uninterp spec fn parent_path(path: Seq<char>) -> Option<Seq<char>>;

/// Calls `Path::parent`. Trusted: the result is the function of the path
/// that is named `parent_path`.
#[verifier::external_body]
pub(crate) fn path_parent(path: &str) -> (parent: Option<String>)
    ensures
        match parent {
            Some(p) => parent_path(path@) == Some(p@),
            None => parent_path(path@).is_none(),
        },
{
    match Path::new(path).parent() {
        Some(p) => Some(p.to_string_lossy().into_owned()),
        None => None,
    }
}

/// A file of the maps directory: its name, and the path it is found at.
#[derive(Debug, Clone)]
pub struct MapFile {
    pub name: String,
    pub path: String,
}

/// A file name that holds the roads of the location `name`.
pub open spec fn is_road_file(file_name: Seq<char>, name: Seq<char>) -> bool {
    occurs_in(file_name, name) && (ends_in(file_name, "geojson"@) || ends_in(
        file_name,
        "geojson.bz2"@,
    ))
}

/// A file name that holds predefined bounds of the location `name`.
pub open spec fn is_bounds_file(file_name: Seq<char>, name: Seq<char>) -> bool {
    occurs_in(file_name, name) && occurs_in(file_name, "bounds"@) && ends_in(file_name, "json"@)
}

/// A file name that holds roads of some location.
pub open spec fn is_map_file(file_name: Seq<char>) -> bool {
    occurs_in(file_name, "geojson"@)
}

/// The paths of those of the first `upto` files that got the verdict
/// `true`, in the files' order.
pub open spec fn picked(files: Seq<MapFile>, verdicts: Seq<bool>, upto: int) -> Seq<Seq<char>>
    decreases upto,
{
    if upto <= 0 {
        Seq::empty()
    } else if verdicts[upto - 1] {
        picked(files, verdicts, upto - 1).push(files[upto - 1].path@)
    } else {
        picked(files, verdicts, upto - 1)
    }
}

/// The predicate can give `verdict` on a file name.
pub open spec fn judged<P: Fn(&str) -> bool>(pred: P, file_name: Seq<char>, verdict: bool) -> bool {
    exists|text: &str| text@ == file_name && call_ensures(pred, (text,), verdict)
}

/// The strings as sequences of characters.
pub open spec fn texts(strings: Seq<String>) -> Seq<Seq<char>> {
    Seq::new(strings.len(), |i: int| strings[i]@)
}

/// The first picked path belongs to the first file with the verdict `true`,
/// and no path is picked exactly when no file has it.
pub proof fn lemma_picked_first(files: Seq<MapFile>, verdicts: Seq<bool>, upto: int)
    requires
        0 <= upto <= files.len(),
        verdicts.len() == files.len(),
    ensures
        picked(files, verdicts, upto).len() == 0 <==> forall|i: int|
            0 <= i < upto ==> !#[trigger] verdicts[i],
        picked(files, verdicts, upto).len() > 0 ==> exists|at: int|
            0 <= at < upto && #[trigger] verdicts[at] && picked(files, verdicts, upto)[0]
                == files[at].path@ && forall|j: int| 0 <= j < at ==> !#[trigger] verdicts[j],
    decreases upto,
{
    if upto > 0 {
        lemma_picked_first(files, verdicts, upto - 1);
        let before = picked(files, verdicts, upto - 1);
        if before.len() == 0 {
            if verdicts[upto - 1] {
                assert(picked(files, verdicts, upto)[0] == files[upto - 1].path@);
            }
        } else {
            let at = choose|at: int|
                0 <= at < upto - 1 && #[trigger] verdicts[at] && before[0] == files[at].path@
                    && forall|j: int| 0 <= j < at ==> !#[trigger] verdicts[j];
            assert(picked(files, verdicts, upto)[0] == before[0]);
            assert(verdicts[at]);
        }
    }
}

/// The paths of the files whose name the predicate accepts, in the files'
/// order.
pub fn map_filename_match<P: Fn(&str) -> bool>(files: &Vec<MapFile>, pred: P) -> (results: Vec<
    String,
>)
    requires
        forall|text: &str| call_requires(pred, (text,)),
    ensures
        exists|verdicts: Seq<bool>|
            {
                &&& verdicts.len() == files@.len()
                &&& forall|i: int|
                    0 <= i < files@.len() ==> judged(pred, files@[i].name@, #[trigger] verdicts[i])
                &&& texts(results@) == picked(files@, verdicts, files@.len() as int)
            },
{
    let mut results: Vec<String> = Vec::new();
    let ghost mut verdicts: Seq<bool> = Seq::empty();
    let n: usize = files.len();
    let mut i: usize = 0;
    while i < n
        invariant
            i <= n,
            n == files@.len(),
            forall|text: &str| call_requires(pred, (text,)),
            verdicts.len() == i,
            forall|j: int| 0 <= j < i ==> judged(pred, files@[j].name@, #[trigger] verdicts[j]),
            texts(results@) == picked(files@, verdicts, i as int),
        decreases n - i,
    {
        let file = &files[i];
        let verdict = pred(file.name.as_str());
        let ghost before = verdicts;
        let ghost had = results@;
        proof {
            verdicts = verdicts.push(verdict);
            lemma_picked_prefix(files@, before, verdicts, i as int);
        }
        if verdict {
            results.push(file.path.clone());
            assert(texts(results@) =~= texts(had).push(file.path@));
        }
        i += 1;
    }
    proof {
        assert(verdicts.len() == files@.len());
    }
    results
}

/// What is picked among the first files does not depend on later verdicts.
pub proof fn lemma_picked_prefix(files: Seq<MapFile>, some: Seq<bool>, more: Seq<bool>, upto: int)
    requires
        0 <= upto <= some.len() <= more.len(),
        forall|i: int| 0 <= i < some.len() ==> some[i] == more[i],
    ensures
        picked(files, some, upto) == picked(files, more, upto),
    decreases upto,
{
    if upto > 0 {
        lemma_picked_prefix(files, some, more, upto - 1);
    }
}

/// `path` is the path of the file at `at`, the first that the predicate
/// accepts.
pub open spec fn is_first_pick<P: Fn(&str) -> bool>(
    pred: P,
    files: Seq<MapFile>,
    at: int,
    path: Seq<char>,
) -> bool {
    &&& 0 <= at < files.len()
    &&& judged(pred, files[at].name@, true)
    &&& path == files[at].path@
    &&& forall|j: int| 0 <= j < at ==> judged(pred, (#[trigger] files[j]).name@, false)
}

/// The path of the first file whose name the predicate accepts.
pub fn first_path<P: Fn(&str) -> bool>(files: &Vec<MapFile>, pred: P) -> (found: Option<String>)
    requires
        forall|text: &str| call_requires(pred, (text,)),
    ensures
        found matches Some(path) ==> exists|at: int| is_first_pick(pred, files@, at, path@),
        found is None ==> forall|i: int|
            0 <= i < files@.len() ==> judged(pred, (#[trigger] files@[i]).name@, false),
{
    let paths = map_filename_match(files, pred);
    proof {
        let verdicts = choose|verdicts: Seq<bool>|
            {
                &&& verdicts.len() == files@.len()
                &&& forall|i: int|
                    0 <= i < files@.len() ==> judged(pred, files@[i].name@, #[trigger] verdicts[i])
                &&& texts(paths@) == picked(files@, verdicts, files@.len() as int)
            };
        lemma_picked_first(files@, verdicts, files@.len() as int);
        assert(texts(paths@).len() == paths@.len());
        if paths@.len() > 0 {
            assert(texts(paths@)[0] == paths@[0]@);
            let all = picked(files@, verdicts, files@.len() as int);
            let at = choose|at: int|
                0 <= at < files@.len() && #[trigger] verdicts[at] && all[0] == files@[at].path@
                    && forall|j: int| 0 <= j < at ==> !#[trigger] verdicts[j];
            assert forall|j: int| 0 <= j < at implies judged(
                pred,
                (#[trigger] files@[j]).name@,
                false,
            ) by {
                assert(!verdicts[j]);
            }
            assert(is_first_pick(pred, files@, at, paths@[0]@));
        } else {
            assert forall|i: int| 0 <= i < files@.len() implies judged(
                pred,
                (#[trigger] files@[i]).name@,
                false,
            ) by {
                assert(!verdicts[i]);
            }
        }
    }
    if paths.len() > 0 {
        let path = paths[0].clone();
        assert(path@ == paths@[0]@);
        let ghost at = choose|at: int| is_first_pick(pred, files@, at, paths@[0]@);
        let found = Some(path);
        assert(is_first_pick(pred, files@, at, found->Some_0@));
        found
    } else {
        None
    }
}

/// A location: the name it was asked for by, and the path of the file that
/// holds its roads. The path is its identity: two locations are equal when
/// their paths are, whatever their names.
#[derive(Debug, Clone)]
pub struct Location {
    pub name: String,
    pub filepath: String,
}

impl PartialEq for Location {
    fn eq(&self, other: &Self) -> (equal: bool) {
        self.filepath == other.filepath
    }
}

impl PartialEqSpecImpl for Location {
    open spec fn obeys_eq_spec() -> bool {
        true
    }

    open spec fn eq_spec(&self, other: &Self) -> bool {
        self.filepath@ == other.filepath@
    }
}

impl Eq for Location {

}

impl Location {
    /// The key under which a location is cached: its file path.
    pub open spec fn key(&self) -> Seq<char> {
        self.filepath@
    }

    /// The location for a name: its road file is the first of the files
    /// whose name holds the location's name and ends in `geojson` or
    /// `geojson.bz2`. There is no location where there is no such file.
    pub fn new(name: &str, files: &Vec<MapFile>) -> (found: Option<Location>)
        ensures
            match found {
                Some(location) => location.name@ == name@ && exists|at: int|
                    0 <= at < files@.len() && is_road_file(
                        (#[trigger] files@[at]).name@,
                        name@,
                    ) && location.filepath@ == files@[at].path@ && forall|j: int|
                        0 <= j < at ==> !is_road_file((#[trigger] files@[j]).name@, name@),
                None => forall|i: int|
                    0 <= i < files@.len() ==> !is_road_file((#[trigger] files@[i]).name@, name@),
            },
    {
        let is_roads = |file_name: &str| -> (verdict: bool)
            ensures
                verdict == is_road_file(file_name@, name@),
            {
                contains(file_name, name) && (ends_with(file_name, "geojson") || ends_with(
                    file_name,
                    "geojson.bz2",
                ))
            };
        match first_path(files, is_roads) {
            Some(path) => {
                proof {
                    let at = choose|at: int| is_first_pick(is_roads, files@, at, path@);
                    assert(judged(is_roads, files@[at].name@, true));
                    assert forall|j: int| 0 <= j < at implies !is_road_file(
                        (#[trigger] files@[j]).name@,
                        name@,
                    ) by {
                        assert(judged(is_roads, files@[j].name@, false));
                    }
                }
                Some(Location { name: String::from_str(name), filepath: path })
            },
            None => {
                proof {
                    assert forall|i: int| 0 <= i < files@.len() implies !is_road_file(
                        (#[trigger] files@[i]).name@,
                        name@,
                    ) by {
                        assert(judged(is_roads, files@[i].name@, false));
                    }
                }
                None
            },
        }
    }

    /// The path of the file that holds predefined bounds for this location:
    /// the first of the files whose name holds the location's name and
    /// `bounds` and ends in `json`.
    pub fn predefined_bounds(&self, files: &Vec<MapFile>) -> (found: Option<String>)
        ensures
            match found {
                Some(path) => exists|at: int|
                    0 <= at < files@.len() && is_bounds_file(
                        (#[trigger] files@[at]).name@,
                        self.name@,
                    ) && path@ == files@[at].path@ && forall|j: int|
                        0 <= j < at ==> !is_bounds_file((#[trigger] files@[j]).name@, self.name@),
                None => forall|i: int|
                    0 <= i < files@.len() ==> !is_bounds_file(
                        (#[trigger] files@[i]).name@,
                        self.name@,
                    ),
            },
    {
        let name = self.name.as_str();
        let is_bounds = |file_name: &str| -> (verdict: bool)
            ensures
                verdict == is_bounds_file(file_name@, name@),
            {
                contains(file_name, name) && contains(file_name, "bounds") && ends_with(
                    file_name,
                    "json",
                )
            };
        let found = first_path(files, is_bounds);
        proof {
            if found is Some {
                let path = found->Some_0;
                let at = choose|at: int| is_first_pick(is_bounds, files@, at, path@);
                assert(judged(is_bounds, files@[at].name@, true));
                assert forall|j: int| 0 <= j < at implies !is_bounds_file(
                    (#[trigger] files@[j]).name@,
                    self.name@,
                ) by {
                    assert(judged(is_bounds, files@[j].name@, false));
                }
            } else {
                assert forall|i: int| 0 <= i < files@.len() implies !is_bounds_file(
                    (#[trigger] files@[i]).name@,
                    self.name@,
                ) by {
                    assert(judged(is_bounds, files@[i].name@, false));
                }
            }
        }
        found
    }

    /// The directory that holds the location's road file: the parent of its
    /// path, or `.` where the path has none.
    pub fn parent(&self) -> (dir: String)
        ensures
            dir@ == match parent_path(self.filepath@) {
                Some(p) => p,
                None => "."@,
            },
    {
        match path_parent(self.filepath.as_str()) {
            Some(p) => p,
            None => String::from_str("."),
        }
    }

    /// Whether the location's road file is compressed: its path ends in
    /// `.bz2`.
    pub fn is_compressed(&self) -> (compressed: bool)
        ensures
            compressed == ends_in(self.filepath@, ".bz2"@),
    {
        ends_with(self.filepath.as_str(), ".bz2")
    }
}

/// The first `upto` strings, with `sep` between each two of them.
pub open spec fn joined(parts: Seq<Seq<char>>, sep: Seq<char>, upto: int) -> Seq<char>
    decreases upto,
{
    if upto <= 0 {
        Seq::empty()
    } else if upto == 1 {
        parts[0]
    } else {
        joined(parts, sep, upto - 1) + sep + parts[upto - 1]
    }
}

/// The names of those of the first `upto` files that hold roads, in the
/// files' order.
pub open spec fn map_names(files: Seq<MapFile>, upto: int) -> Seq<Seq<char>>
    decreases upto,
{
    if upto <= 0 {
        Seq::empty()
    } else if is_map_file(files[upto - 1].name@) {
        map_names(files, upto - 1).push(files[upto - 1].name@)
    } else {
        map_names(files, upto - 1)
    }
}

/// Joining the first strings does not depend on those that follow.
pub proof fn lemma_joined_prefix(parts: Seq<Seq<char>>, more: Seq<Seq<char>>, sep: Seq<char>, upto: int)
    requires
        0 <= upto <= parts.len() <= more.len(),
        forall|i: int| 0 <= i < parts.len() ==> parts[i] == more[i],
    ensures
        joined(parts, sep, upto) == joined(more, sep, upto),
    decreases upto,
{
    if upto > 1 {
        lemma_joined_prefix(parts, more, sep, upto - 1);
    }
}

/// The names of the files that hold roads, those whose name holds
/// `geojson`, one on each line.
pub fn map_list(files: &Vec<MapFile>) -> (list: String)
    ensures
        list@ == joined(
            map_names(files@, files@.len() as int),
            "\n"@,
            map_names(files@, files@.len() as int).len() as int,
        ),
{
    let mut list = String::new();
    let mut any: bool = false;
    let n: usize = files.len();
    let mut i: usize = 0;
    while i < n
        invariant
            i <= n,
            n == files@.len(),
            any == (map_names(files@, i as int).len() > 0),
            list@ == joined(
                map_names(files@, i as int),
                "\n"@,
                map_names(files@, i as int).len() as int,
            ),
        decreases n - i,
    {
        let file = &files[i];
        if contains(file.name.as_str(), "geojson") {
            let ghost names = map_names(files@, i as int);
            let ghost more = names.push(file.name@);
            proof {
                lemma_joined_prefix(names, more, "\n"@, names.len() as int);
            }
            if any {
                list.append("\n");
            }
            list.append(file.name.as_str());
            any = true;
            assert(list@ =~= joined(more, "\n"@, more.len() as int));
        }
        i += 1;
    }
    list
}

} // verus!
