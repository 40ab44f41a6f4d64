//! The path filter: the ignore rules of a working directory, and their
//! verdicts on the entries of a listing.

use crate::entry::DirEntry;
use autocorrect::ignorer::Ignorer;
use vstd::prelude::*;
use vstd::std_specs::iter::IteratorSpec;

verus! {

/// The ignore rules of a working directory, as `autocorrect` loads them from
/// the ignore files in it. Nothing of their contents is visible here.
#[verifier::external_type_specification]
#[verifier::external_body]
pub struct ExIgnorer(Ignorer);

/// The verdict of `Ignorer::is_ignored` on a path: a function of the loaded
/// rules and of the path alone. What the verdict is on any given path is left
/// open.
pub uninterp spec fn rules_ignore(rules: Ignorer, relative_path: Seq<char>) -> bool;

/// A path that can be handed to the rules: every `/` in it follows a
/// character that is no `/`, so the path does not start at the root of the
/// file system and has no empty component.
pub open spec fn is_relative(path: Seq<char>) -> bool {
    forall|i: int| 0 <= i < path.len() && #[trigger] path[i] == '/' ==> i > 0 && path[i - 1] != '/'
}

/// Calls `Ignorer::is_ignored`. It matches the path, and then each of its
/// parent directories, against the loaded rules, and reads nothing but the
/// rules and the path. Before it matches, it strips `./` and the rules' own
/// root, with one `/` behind it, from the front of the path, and it panics
/// where what is left starts with `/`. That cannot happen to a path that
/// `is_relative` admits, where paths are separated by `/`.
#[verifier::external_body]
fn rules_verdict(rules: &Ignorer, relative_path: &str) -> (ignored: bool)
    requires
        is_relative(relative_path@),
    ensures
        ignored == rules_ignore(*rules, relative_path@),
{
    rules.is_ignored(relative_path)
}

/// Tests whether a path can be handed to the rules.
pub fn is_relative_path(path: &str) -> (relative: bool)
    ensures
        relative == is_relative(path@),
{
    let mut rest = path.chars();
    let mut after_separator = true;
    let ghost mut done: int = 0;
    loop
        invariant
            0 <= done <= path@.len(),
            rest.remaining() == path@.skip(done),
            after_separator == (done == 0 || path@[done - 1] == '/'),
            forall|i: int|
                0 <= i < done && #[trigger] path@[i] == '/' ==> i > 0 && path@[i - 1] != '/',
        decreases path@.len() - done,
    {
        match rest.next() {
            None => {
                return true;
            },
            Some(c) => {
                proof {
                    assert(path@.skip(done).drop_first() =~= path@.skip(done + 1));
                    assert(path@[done] == c);
                }
                if c == '/' {
                    if after_separator {
                        return false;
                    }
                    after_separator = true;
                } else {
                    after_separator = false;
                }
                proof {
                    done = done + 1;
                }
            },
        }
    }
}

/// Every entry has a relative path that can be handed to the rules.
pub open spec fn all_relative(entries: Seq<DirEntry>) -> bool {
    forall|i: int| 0 <= i < entries.len() ==> is_relative((#[trigger] entries[i])@.relative_path)
}

/// The entries of a listing, each with the verdict of the rules on its
/// relative path.
pub open spec fn judged_by(rules: Ignorer, entries: Seq<DirEntry>) -> Seq<(DirEntry, bool)> {
    entries.map_values(
        |entry: DirEntry| (entry, rules_ignore(rules, entry@.relative_path)),
    )
}

/// Asks the rules about each entry of a listing, by its relative path, and
/// hands each entry back with its verdict.
pub fn judge(rules: &Ignorer, entries: Vec<DirEntry>) -> (judged: Vec<(DirEntry, bool)>)
    requires
        all_relative(entries@),
    ensures
        judged@ == judged_by(*rules, entries@),
{
    let ghost given = entries@;
    let mut judged: Vec<(DirEntry, bool)> = Vec::new();
    for entry in iter: entries
        invariant
            iter.seq() == given,
            all_relative(given),
            judged@ == judged_by(*rules, given.take(iter.index() as int)),
    {
        let ghost before = judged@;
        let ignored = rules_verdict(rules, entry.relative_path.as_str());
        judged.push((entry, ignored));
        proof {
            let k = iter.index() as int;
            assert(judged@ =~= judged_by(*rules, given.take(k + 1)));
        }
    }
    proof {
        assert(given.take(given.len() as int) =~= given);
    }
    judged
}

} // verus!
