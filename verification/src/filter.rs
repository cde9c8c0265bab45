//! Choosing files by a pattern on their paths.

use crate::error::SearchError;
use crate::matching;
use crate::matching::{compile, is_match};
use regex::Regex;
use vstd::prelude::*;

verus! {

/// Whether a path passes a file pattern.
pub open spec fn path_passes(file_pattern: Option<Seq<char>>, path: Seq<char>) -> bool {
    match file_pattern {
        None => true,
        Some(fp) => matching::matches((fp, false), path),
    }
}

/// The text of an optional pattern.
pub open spec fn optional_text(pattern: Option<&str>) -> Option<Seq<char>> {
    match pattern {
        Some(p) => Some(p@),
        None => None,
    }
}

/// The message with which a file pattern is refused, or `None` where it compiles or
/// there is none.
pub open spec fn file_refusal(file_pattern: Option<Seq<char>>) -> Option<Seq<char>> {
    match file_pattern {
        Some(fp) => matching::refusal(fp, false),
        None => None,
    }
}

/// Whether an error tells that the file pattern was refused, with the message.
pub open spec fn refused_file_pattern(e: SearchError, file_pattern: Option<Seq<char>>) -> bool {
    &&& e matches SearchError::FilePattern(message)
    &&& file_refusal(file_pattern) == Some(message@)
}

/// Whether a path passes a compiled file pattern.
pub open spec fn filter_passes(filter: Option<Regex>, path: Seq<char>) -> bool {
    match filter {
        None => true,
        Some(re) => matching::matches(matching::made_with(re), path),
    }
}

/// Compiles a file pattern, where there is one.
pub(crate) fn compile_filter(file_pattern: Option<&str>) -> (r: Result<Option<Regex>, SearchError>)
    ensures
        match r {
            Ok(filter) => {
                &&& file_refusal(optional_text(file_pattern)) is None
                &&& forall|path: Seq<char>| #[trigger]
                    filter_passes(filter, path) == path_passes(optional_text(file_pattern), path)
            },
            Err(e) => refused_file_pattern(e, optional_text(file_pattern)),
        },
{
    match file_pattern {
        None => Ok(None),
        Some(fp) => match compile(fp, false) {
            Ok(re) => Ok(Some(re)),
            Err(message) => Err(SearchError::FilePattern(message)),
        },
    }
}

/// Whether a path passes a compiled file pattern.
pub(crate) fn passes(filter: &Option<Regex>, path: &str) -> (r: bool)
    ensures
        r == filter_passes(*filter, path@),
{
    match filter {
        None => true,
        Some(re) => is_match(re, path),
    }
}

/// The items that are marked.
pub open spec fn marked<T>(items: Seq<T>, hits: Seq<bool>) -> Seq<T>
    decreases items.len(),
{
    if items.len() == 0 || items.len() != hits.len() {
        Seq::empty()
    } else if hits.last() {
        marked(items.drop_last(), hits.drop_last()).push(items.last())
    } else {
        marked(items.drop_last(), hits.drop_last())
    }
}

/// Keeps the items that are marked.
pub fn keep_marked<T>(items: Vec<T>, hits: &[bool]) -> (out: Vec<T>)
    requires
        items@.len() == hits@.len(),
    ensures
        out@ == marked(items@, hits@),
{
    let ghost all = items@;
    let ghost mut n: int = 0;
    let mut out: Vec<T> = Vec::new();
    let mut i: usize = 0;
    for item in it: items.into_iter()
        invariant
            it.seq() == all,
            n == it.index(),
            0 <= n <= all.len(),
            it.index() == it.seq().len() ==> n == all.len(),
            all.len() == hits@.len(),
            i == n,
            out@ == marked(all.take(n), hits@.take(n)),
    {
        proof {
            assert(all.take(n + 1).drop_last() =~= all.take(n));
            assert(hits@.take(n + 1).drop_last() =~= hits@.take(n));
            assert(all.take(n + 1).last() == item);
        }
        if hits[i] {
            out.push(item);
        }
        i += 1;
        proof {
            n = n + 1;
        }
    }
    proof {
        assert(all.take(n) =~= all);
        assert(hits@.take(n) =~= hits@);
    }
    out
}

/// What is marked among images are the images of what is marked.
pub proof fn lemma_marked_map<T, U>(items: Seq<T>, hits: Seq<bool>, f: spec_fn(T) -> U)
    requires
        items.len() == hits.len(),
    ensures
        marked(items.map_values(f), hits) == marked(items, hits).map_values(f),
    decreases items.len(),
{
    let images = items.map_values(f);
    if items.len() > 0 {
        lemma_marked_map(items.drop_last(), hits.drop_last(), f);
        assert(images.drop_last() =~= items.drop_last().map_values(f));
    }
    assert(marked(images, hits) =~= marked(items, hits).map_values(f));
}

} // verus!
