//! Splitting a matched name around the first occurrence of the pattern, so
//! that a caller can render the matched span emphasized and the rest
//! unchanged.

use vstd::prelude::*;

use crate::text::contains_sub;
use crate::text::copy_range;
use crate::text::find_sub;
use crate::text::is_match_at;

verus! {

/// A name split around the matched span: concatenating the three parts in
/// order gives the name back exactly.
pub struct HighlightParts {
    pub before: Vec<u8>,
    pub matched: Vec<u8>,
    pub after: Vec<u8>,
}

/// Split `branch_name` at the first occurrence of `needle`: the bytes before
/// the match, the matched span itself — equal to `needle` — and the bytes
/// after it. When `needle` does not occur, the whole name is returned as the
/// part before an empty span, so the name passes through unmodified.
pub fn highlight_match(branch_name: &Vec<u8>, needle: &Vec<u8>) -> (r: HighlightParts)
    ensures
        r.before@ + r.matched@ + r.after@ == branch_name@,
        contains_sub(branch_name@, needle@) ==> {
            &&& r.matched@ == needle@
            &&& is_match_at(branch_name@, needle@, r.before@.len() as int)
            &&& forall|j: int|
                0 <= j < r.before@.len() ==> !is_match_at(branch_name@, needle@, j)
        },
        !contains_sub(branch_name@, needle@) ==> {
            &&& r.before@ == branch_name@
            &&& r.matched@.len() == 0
            &&& r.after@.len() == 0
        },
{
    match find_sub(branch_name, needle) {
        Some(pos) => {
            proof {
                assert(pos + needle@.len() <= branch_name.len());
            }
            let end: usize = pos + needle.len();
            let before = copy_range(branch_name, 0, pos);
            let matched = copy_range(branch_name, pos, end);
            let after = copy_range(branch_name, end, branch_name.len());
            proof {
                assert(branch_name@.subrange(0, pos as int) + branch_name@.subrange(
                    pos as int,
                    end as int,
                ) + branch_name@.subrange(end as int, branch_name@.len() as int)
                    =~= branch_name@);
                assert(matched@ == needle@);
            }
            HighlightParts { before, matched, after }
        },
        None => {
            let before = copy_range(branch_name, 0, branch_name.len());
            let matched: Vec<u8> = Vec::new();
            let after: Vec<u8> = Vec::new();
            proof {
                assert(branch_name@.subrange(0, branch_name@.len() as int) =~= branch_name@);
                assert(before@ + matched@ + after@ =~= branch_name@);
            }
            HighlightParts { before, matched, after }
        },
    }
}

} // verus!
