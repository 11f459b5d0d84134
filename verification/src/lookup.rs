//! Finding and listing result files.

use crate::compare::{can_shorten, short, shortened};
use crate::result::GitInfo;
use crate::text::{comes_before, contains, decimal, decimal_of, has_substring, pad_right, padded_right, precedes};
use vstd::prelude::*;

verus! {

/// Whether a file name has the extension of result files: it ends in `.json`, and
/// something stands before that.
pub open spec fn is_json_name(name: Seq<u8>) -> bool {
    &&& name.len() > 5
    &&& name.subrange(name.len() - 5, name.len() as int) == seq![46u8, 106u8, 115u8, 111u8, 110u8]
}

/// Whether a file name, as bytes, has the extension of result files.
pub fn has_json_extension(name: &[u8]) -> (r: bool)
    ensures
        r == is_json_name(name@),
{
    let n: usize = name.len();
    if n <= 5 {
        return false;
    }
    let r = name[n - 5] == 46 && name[n - 4] == 106 && name[n - 3] == 115 && name[n - 2] == 111
        && name[n - 1] == 110;
    proof {
        let end = name@.subrange(n - 5, n as int);
        let json = seq![46u8, 106u8, 115u8, 111u8, 110u8];
        if r {
            assert(end =~= json);
        } else {
            assert(end[0] == name@[n - 5] && end[1] == name@[n - 4] && end[2] == name@[n - 3]
                && end[3] == name@[n - 2] && end[4] == name@[n - 1]);
        }
    }
    r
}

/// A file that may be meant by an argument.
#[derive(Debug)]
pub struct ResultFile {
    /// Its name, where that is valid Unicode.
    pub name: Option<String>,
    /// The label of the run that it holds, where it can be read as one.
    pub label: Option<String>,
    /// When it was last modified, in nanoseconds since the epoch, where that is known.
    pub modified: Option<i128>,
}

/// What an argument was resolved to.
#[derive(Clone, Copy, Debug, PartialEq, Eq, Structural)]
pub enum Resolved {
    /// The path that the argument is.
    Path,
    /// The file at `index`, out of as many as match.
    File { index: usize, matches: usize },
}

/// Why an argument was not resolved.
#[derive(Clone, Copy, Debug, PartialEq, Eq, Structural)]
pub enum ResolveError {
    NoDirectory,
    NoMatch,
}

impl ResolveError {
    pub open spec fn text(self, arg: Seq<char>, dir: Seq<char>) -> Seq<char> {
        match self {
            ResolveError::NoDirectory => "'"@ + arg + "' is not a path and "@ + dir
                + " does not exist"@,
            ResolveError::NoMatch => "no result file in "@ + dir + " matches '"@ + arg + "'"@,
        }
    }

    /// The reason in words.
    pub fn message(self, arg: &str, dir: &str) -> (r: String)
        ensures
            r@ == self.text(arg@, dir@),
    {
        match self {
            ResolveError::NoDirectory => {
                let mut out = "'".to_owned();
                out.append(arg);
                out.append("' is not a path and ");
                out.append(dir);
                out.append(" does not exist");
                out
            },
            ResolveError::NoMatch => {
                let mut out = "no result file in ".to_owned();
                out.append(dir);
                out.append(" matches '");
                out.append(arg);
                out.append("'");
                out
            },
        }
    }
}

/// Whether the file holds a run with exactly this label.
pub open spec fn labeled(file: ResultFile, arg: Seq<char>) -> bool {
    file.label is Some && file.label->0@ == arg
}

/// Whether the name of the file contains the argument.
pub open spec fn named(file: ResultFile, arg: Seq<char>) -> bool {
    file.name is Some && has_substring(file.name->0@, arg)
}

/// Whether any file holds a run with exactly this label.
pub open spec fn any_labeled(files: Seq<ResultFile>, arg: Seq<char>) -> bool {
    exists|i: int| 0 <= i < files.len() && labeled(#[trigger] files[i], arg)
}

/// Whether the argument may mean the file: where any file has it as its label,
/// that decides; otherwise the file names do.
pub open spec fn is_match(files: Seq<ResultFile>, arg: Seq<char>, i: int) -> bool {
    if any_labeled(files, arg) {
        labeled(files[i], arg)
    } else {
        named(files[i], arg)
    }
}

/// How many of the first `n` files the argument may mean.
pub open spec fn count_matches(files: Seq<ResultFile>, arg: Seq<char>, n: nat) -> nat
    decreases n,
{
    if n == 0 {
        0
    } else {
        count_matches(files, arg, (n - 1) as nat) + if is_match(files, arg, n - 1) {
            1nat
        } else {
            0
        }
    }
}

/// Whether a file modified at `a` is older than one modified at `b`; a time that is
/// not known is older than any that is.
pub open spec fn older(a: Option<i128>, b: Option<i128>) -> bool {
    match (a, b) {
        (Some(x), Some(y)) => x < y,
        (None, Some(_)) => true,
        (_, None) => false,
    }
}

/// Whether the file at `index` is the newest that the argument may mean; of equally
/// new ones, it is the last.
pub open spec fn is_newest_match(files: Seq<ResultFile>, arg: Seq<char>, index: int) -> bool {
    &&& 0 <= index < files.len()
    &&& is_match(files, arg, index)
    &&& forall|j: int|
        0 <= j < files.len() && #[trigger] is_match(files, arg, j) ==> !older(
            files[index].modified,
            files[j].modified,
        ) && (j > index ==> older(files[j].modified, files[index].modified))
}

fn is_older(a: Option<i128>, b: Option<i128>) -> (r: bool)
    ensures
        r == older(a, b),
{
    match (a, b) {
        (Some(x), Some(y)) => x < y,
        (None, Some(_)) => true,
        (_, None) => false,
    }
}

fn has_label(file: &ResultFile, arg: &String) -> (r: bool)
    ensures
        r == labeled(*file, arg@),
{
    match &file.label {
        Some(l) => *l == *arg,
        None => false,
    }
}

fn has_name(file: &ResultFile, arg: &str) -> (r: bool)
    ensures
        r == named(*file, arg@),
{
    match &file.name {
        Some(n) => contains(n.as_str(), arg),
        None => false,
    }
}

/// Resolves an argument to a result file. An existing path is taken as it is.
/// Otherwise the files of the directory that hold a run with exactly this label are
/// meant, or, if there are none, those whose name contains the argument; the newest
/// of them is taken.
pub fn resolve(arg: &str, path_exists: bool, dir_exists: bool, files: &[ResultFile]) -> (r: Result<
    Resolved,
    ResolveError,
>)
    ensures
        match r {
            Ok(Resolved::Path) => path_exists,
            Ok(Resolved::File { index, matches }) => {
                &&& !path_exists
                &&& dir_exists
                &&& is_newest_match(files@, arg@, index as int)
                &&& matches == count_matches(files@, arg@, files@.len())
            },
            Err(ResolveError::NoDirectory) => !path_exists && !dir_exists,
            Err(ResolveError::NoMatch) => {
                &&& !path_exists
                &&& dir_exists
                &&& forall|i: int| 0 <= i < files@.len() ==> !#[trigger] is_match(files@, arg@, i)
            },
        },
{
    if path_exists {
        return Ok(Resolved::Path);
    }
    if !dir_exists {
        return Err(ResolveError::NoDirectory);
    }
    let text: String = arg.to_owned();
    let mut by_label = false;
    for i in 0..files.len()
        invariant
            text@ == arg@,
            by_label ==> any_labeled(files@, arg@),
            !by_label ==> forall|j: int| 0 <= j < i ==> !labeled(#[trigger] files@[j], arg@),
    {
        if has_label(&files[i], &text) {
            by_label = true;
        }
    }
    let mut best: Option<usize> = None;
    let mut matches: usize = 0;
    for i in 0..files.len()
        invariant
            text@ == arg@,
            by_label == any_labeled(files@, arg@),
            matches == count_matches(files@, arg@, i as nat),
            matches <= i,
            best is None ==> forall|j: int|
                0 <= j < i ==> !#[trigger] is_match(files@, arg@, j),
            best matches Some(b) ==> {
                &&& b < i
                &&& is_match(files@, arg@, b as int)
                &&& forall|j: int|
                    0 <= j < i && #[trigger] is_match(files@, arg@, j) ==> !older(
                        files@[b as int].modified,
                        files@[j].modified,
                    ) && (j > b ==> older(files@[j].modified, files@[b as int].modified))
            },
    {
        let hit = if by_label { has_label(&files[i], &text) } else { has_name(&files[i], arg) };
        assert(hit == is_match(files@, arg@, i as int));
        if hit {
            matches = matches + 1;
            best = match best {
                Some(b) => if is_older(files[i].modified, files[b].modified) {
                    Some(b)
                } else {
                    Some(i)
                },
                None => Some(i),
            };
        }
    }
    match best {
        Some(index) => Ok(Resolved::File { index, matches }),
        None => Err(ResolveError::NoMatch),
    }
}

/// A label takes precedence: where any file holds a run with the argument as its
/// label, the file that is taken does.
pub proof fn law_exact_label_wins(files: Seq<ResultFile>, arg: Seq<char>, index: int, i: int)
    requires
        is_newest_match(files, arg, index),
        0 <= i < files.len(),
        labeled(files[i], arg),
    ensures
        labeled(files[index], arg),
        !older(files[index].modified, files[i].modified),
{
    assert(any_labeled(files, arg));
    assert(is_match(files, arg, i));
}

/// At most one file is the newest match, so that what an argument is resolved to is
/// determined.
pub proof fn law_resolution_is_determined(files: Seq<ResultFile>, arg: Seq<char>, a: int, b: int)
    requires
        is_newest_match(files, arg, a),
        is_newest_match(files, arg, b),
    ensures
        a == b,
{
    assert(is_match(files, arg, a) && is_match(files, arg, b));
}

/// The remark that an argument matched several files.
pub fn ambiguity_note(arg: &str, matches: usize, chosen: &str) -> (r: String)
    ensures
        r@ == "note: '"@ + arg@ + "' matched "@ + decimal_of(matches as nat)
            + " files; using newest: "@ + chosen@,
{
    let mut out = "note: '".to_owned();
    out.append(arg);
    out.append("' matched ");
    out.append(decimal(matches).as_str());
    out.append(" files; using newest: ");
    out.append(chosen);
    out
}

/// Whether `order` names each of `n` positions once.
pub open spec fn is_arrangement(order: Seq<usize>, n: nat) -> bool {
    &&& order.len() == n
    &&& forall|i: int| 0 <= i < n ==> (#[trigger] order[i]) < n
    &&& forall|i: int, j: int| 0 <= i < j < n ==> order[i] != order[j]
}

/// Whether `order` goes through the names in dictionary order; equal names keep
/// theirs.
pub open spec fn lists_in_order(order: Seq<usize>, names: Seq<Vec<u8>>) -> bool {
    forall|i: int, j: int|
        0 <= i < j < order.len() ==> {
            let a = names[#[trigger] order[i] as int]@;
            let b = names[#[trigger] order[j] as int]@;
            comes_before(a, b) || a == b && order[i] < order[j]
        }
}

/// The order in which files with the given names, as bytes, are listed.
pub fn list_order(names: &[Vec<u8>]) -> (order: Vec<usize>)
    ensures
        is_arrangement(order@, names@.len()),
        lists_in_order(order@, names@),
{
    let mut order: Vec<usize> = Vec::new();
    for n in 0..names.len()
        invariant
            is_arrangement(order@, n as nat),
            lists_in_order(order@, names@),
            n <= names@.len(),
    {
        let ghost before = order@;
        let mut at: usize = n;
        while at > 0 && precedes(names[n].as_slice(), names[order[at - 1]].as_slice())
            invariant
                order@ == before,
                is_arrangement(before, n as nat),
                n < names@.len(),
                at <= n,
                forall|k: int|
                    at <= k < n ==> comes_before(
                        names@[n as int]@,
                        names@[#[trigger] before[k] as int]@,
                    ),
            decreases at,
        {
            at = at - 1;
        }
        proof {
            assert forall|k: int| 0 <= k < at implies comes_before(
                names@[#[trigger] before[k] as int]@,
                names@[n as int]@,
            ) || names@[before[k] as int]@ == names@[n as int]@ by {
                let x = names@[before[k] as int]@;
                let y = names@[before[at - 1] as int]@;
                let z = names@[n as int]@;
                crate::text::law_dictionary_order(x, y, z);
                crate::text::law_dictionary_order(y, z, x);
                crate::text::law_dictionary_order(x, z, y);
                if k < at - 1 {
                    assert(comes_before(x, y) || x == y);
                }
            }
        }
        order.insert(at, n);
    }
    order
}

/// The line that lists a result file.
pub fn list_line(name: &str, label: &str, git: &GitInfo) -> (r: String)
    requires
        can_shorten(git.plugin_rev@),
        can_shorten(git.core_rev@),
    ensures
        r@ == name@ + "  label="@ + padded_right(label@, 20) + " plugin="@ + shortened(
            git.plugin_rev@,
        ) + " core="@ + shortened(git.core_rev@),
{
    let mut out = name.to_owned();
    out.append("  label=");
    out.append(pad_right(label, 20).as_str());
    out.append(" plugin=");
    out.append(short(git.plugin_rev.as_str()));
    out.append(" core=");
    out.append(short(git.core_rev.as_str()));
    out
}

/// The line that lists a file that cannot be read as a result.
pub fn list_error_line(path: &str, error: &str) -> (r: String)
    ensures
        r@ == path@ + "  (parse error: "@ + error@ + ")"@,
{
    let mut out = path.to_owned();
    out.append("  (parse error: ");
    out.append(error);
    out.append(")");
    out
}

/// The line that stands for a listing of a directory that is not there.
pub fn no_directory_line(dir: &str) -> (r: String)
    ensures
        r@ == "(no results dir at "@ + dir@ + ")"@,
{
    let mut out = "(no results dir at ".to_owned();
    out.append(dir);
    out.append(")");
    out
}

/// A name has the extension of result files exactly where it is something and then
/// `.json`: the extension alone is not enough.
pub proof fn law_json_names(stem: Seq<u8>, name: Seq<u8>)
    ensures
        is_json_name(stem + seq![46u8, 106u8, 115u8, 111u8, 110u8]) <==> stem.len() > 0,
        is_json_name(name) ==> name == name.take(name.len() - 5) + seq![
            46u8,
            106u8,
            115u8,
            111u8,
            110u8,
        ],
{
    let json = seq![46u8, 106u8, 115u8, 111u8, 110u8];
    let whole = stem + json;
    assert(whole.subrange(whole.len() - 5, whole.len() as int) =~= json);
    if is_json_name(name) {
        assert(name =~= name.take(name.len() - 5) + name.subrange(
            name.len() - 5,
            name.len() as int,
        ));
    }
}

/// What an argument may mean, said of the files themselves: where some file's label
/// is the argument, just the files with that label, and otherwise just those with
/// the argument somewhere in their name.
pub proof fn law_matches(files: Seq<ResultFile>, arg: Seq<char>, i: int)
    requires
        0 <= i < files.len(),
    ensures
        (files[i].label matches Some(l) && l@ == arg) ==> is_match(files, arg, i),
        (exists|j: int|
            0 <= j < files.len() && ((#[trigger] files[j]).label matches Some(l) && l@ == arg))
            ==> (is_match(files, arg, i) <==> (files[i].label matches Some(l) && l@ == arg)),
        (forall|j: int|
            0 <= j < files.len() ==> !((#[trigger] files[j]).label matches Some(l) && l@ == arg))
            ==> (is_match(files, arg, i) <==> (files[i].name matches Some(n) && has_substring(
            n@,
            arg,
        ))),
{
    if exists|j: int|
        0 <= j < files.len() && ((#[trigger] files[j]).label matches Some(l) && l@ == arg) {
        let j = choose|j: int|
            0 <= j < files.len() && ((#[trigger] files[j]).label matches Some(l) && l@ == arg);
        assert(labeled(files[j], arg));
    }
    if labeled(files[i], arg) {
        assert(any_labeled(files, arg));
    }
}

/// The file that is taken was modified after every other that the argument may mean,
/// or at the same time but stands behind it; one whose time is not known counts as
/// the oldest.
pub proof fn law_newest_match_is_taken(
    files: Seq<ResultFile>,
    arg: Seq<char>,
    index: int,
    j: int,
)
    requires
        is_newest_match(files, arg, index),
    ensures
        0 <= index < files.len(),
        is_match(files, arg, index),
        0 <= j < files.len() && j != index && is_match(files, arg, j) ==> {
            let taken = files[index].modified;
            let other = files[j].modified;
            ||| other is None && taken is Some
            ||| other is Some && taken is Some && other->0 < taken->0
            ||| other == taken && j < index
        },
{
}

/// How many files an argument may mean is counted one by one, over all of them.
pub proof fn law_matches_are_counted(files: Seq<ResultFile>, arg: Seq<char>, n: nat)
    ensures
        count_matches(files, arg, 0) == 0,
        is_match(files, arg, n as int) ==> count_matches(files, arg, n + 1) == count_matches(
            files,
            arg,
            n,
        ) + 1,
        !is_match(files, arg, n as int) ==> count_matches(files, arg, n + 1) == count_matches(
            files,
            arg,
            n,
        ),
{
}

/// A listing goes through each file once, never to one whose name comes before that
/// of a file already listed.
pub proof fn law_listing(order: Seq<usize>, names: Seq<Vec<u8>>, i: int, j: int)
    requires
        is_arrangement(order, names.len()),
        lists_in_order(order, names),
        0 <= i < j < order.len(),
    ensures
        order.len() == names.len(),
        order[i] < names.len() && order[j] < names.len() && order[i] != order[j],
        !comes_before(names[order[j] as int]@, names[order[i] as int]@),
        names[order[i] as int]@ == names[order[j] as int]@ ==> order[i] < order[j],
{
    let a = names[order[i] as int]@;
    let b = names[order[j] as int]@;
    crate::text::law_dictionary_order(a, b, a);
}

/// An argument that was not resolved is named in full, in quotes, together with the
/// directory that was searched.
pub proof fn law_refusals_name_the_argument(arg: Seq<char>, dir: Seq<char>)
    ensures
        ResolveError::NoDirectory.text(arg, dir) == "'"@ + arg + "' is not a path and "@ + dir
            + " does not exist"@,
        ResolveError::NoMatch.text(arg, dir) == "no result file in "@ + dir + " matches '"@ + arg
            + "'"@,
{
}

} // verus!
