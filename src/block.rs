//! Locating the optional-dependency block in a package's metadata text.

use vstd::prelude::*;
use crate::text::{
    chars_of, find_from, first_occ_from, last_occ, matches_at, occurs_at, rfind, trim,
    trim_bounds,
};

verus! {

/// Label of the field that lists the optional dependencies.
pub const OPTIONAL_DEPS_LABEL: &'static str = "Optional Deps";

/// What stands between the optional-dependency label and its first entry.
pub const OPTIONAL_DEPS_SEPARATOR: &'static str = "   : ";

/// Label of the field that follows the optional-dependency block.
pub const REQUIRED_BY_LABEL: &'static str = "Required By";

/// Value of the optional-dependency field of a package that has none.
pub const NONE_SENTINEL: &'static str = "None";

/// Why a package's metadata could not be read.
#[derive(Clone, Copy, Debug, PartialEq, Eq, Structural)]
pub enum MetadataError {
    /// The optional-dependency label does not occur.
    MissingOptionalDeps,
    /// The label that ends the block does not occur after the block's start.
    MissingRequiredBy,
}

pub open spec fn label() -> Seq<char> {
    OPTIONAL_DEPS_LABEL@
}

pub open spec fn separator() -> Seq<char> {
    OPTIONAL_DEPS_SEPARATOR@
}

pub open spec fn terminator() -> Seq<char> {
    REQUIRED_BY_LABEL@
}

pub open spec fn sentinel() -> Seq<char> {
    NONE_SENTINEL@
}

/// The label together with its separator, which the block's body follows.
pub open spec fn block_prefix() -> Seq<char> {
    label() + separator()
}

/// The span of the block: from the last occurrence of the label to the first
/// occurrence of the terminating label after it.
pub open spec fn block_span(t: Seq<char>) -> Result<(int, int), MetadataError> {
    let i = last_occ(t, label());
    if i == -1 {
        Err(MetadataError::MissingOptionalDeps)
    } else {
        let j = first_occ_from(t, terminator(), i);
        if j == -1 {
            Err(MetadataError::MissingRequiredBy)
        } else {
            Ok((i, j))
        }
    }
}

/// The text of the block, label included.
pub open spec fn block_of(t: Seq<char>) -> Result<Seq<char>, MetadataError> {
    match block_span(t) {
        Ok((i, j)) => Ok(t.subrange(i, j)),
        Err(e) => Err(e),
    }
}

/// The block without its label and separator. The block starts at the label's
/// last occurrence, so the prefix can stand only at its start.
pub open spec fn body_of(block: Seq<char>) -> Seq<char> {
    if block.len() >= block_prefix().len() && block.take(block_prefix().len() as int)
        == block_prefix() {
        block.skip(block_prefix().len() as int)
    } else {
        block
    }
}

/// Whether a block's body says that the package has no optional dependencies.
pub open spec fn is_sentinel(body: Seq<char>) -> bool {
    trim(body) == sentinel()
}

/// Finds the span of the block in `t`.
pub fn locate(t: &Vec<char>) -> (r: Result<(usize, usize), MetadataError>)
    ensures
        r is Ok <==> block_span(t@) is Ok,
        r matches Ok((i, j)) ==> i <= j <= t.len() && block_span(t@) == Ok::<
            (int, int),
            MetadataError,
        >((i as int, j as int)),
        r matches Err(e) ==> block_span(t@) == Err::<(int, int), MetadataError>(e),
{
    let lab = chars_of(OPTIONAL_DEPS_LABEL);
    let term = chars_of(REQUIRED_BY_LABEL);
    match rfind(t, &lab) {
        None => Err(MetadataError::MissingOptionalDeps),
        Some(i) => {
            proof {
                crate::text::lemma_last_occ(t@, lab@);
            }
            match find_from(t, &term, i) {
                None => Err(MetadataError::MissingRequiredBy),
                Some(j) => {
                    proof {
                        crate::text::lemma_first_occ_from(t@, term@, i as int);
                    }
                    Ok((i, j))
                },
            }
        },
    }
}

/// The position in `t` where the body of the block `t[i..j]` starts.
pub fn body_start(t: &Vec<char>, i: usize, j: usize) -> (r: usize)
    requires
        i <= j <= t.len(),
        occurs_at(t@, label(), i as int),
    ensures
        i <= r <= j,
        t@.subrange(r as int, j as int) == body_of(t@.subrange(i as int, j as int)),
{
    let lab = chars_of(OPTIONAL_DEPS_LABEL);
    let sep = chars_of(OPTIONAL_DEPS_SEPARATOR);
    let ghost block = t@.subrange(i as int, j as int);
    let ghost n = block_prefix().len() as int;
    if lab.len() <= j - i && sep.len() <= j - i - lab.len() && matches_at(t, &sep, i + lab.len()) {
        assert(block.take(n) =~= t@.subrange(i as int, i + lab.len()) + t@.subrange(
            i + lab.len(),
            i + n,
        ));
        assert(block.skip(n) =~= t@.subrange(i + n, j as int));
        i + lab.len() + sep.len()
    } else {
        proof {
            if block.len() >= n && block.take(n) == block_prefix() {
                assert(t@.subrange(i + lab@.len(), i + n) =~= block.take(n).subrange(
                    lab@.len() as int,
                    n,
                ));
                assert(block_prefix().subrange(lab@.len() as int, n) =~= sep@);
            }
        }
        i
    }
}

/// Whether `t[a..b]` is the sentinel once trimmed.
pub fn sentinel_at(t: &Vec<char>, a: usize, b: usize) -> (r: bool)
    requires
        a <= b <= t.len(),
    ensures
        r == is_sentinel(t@.subrange(a as int, b as int)),
{
    let none = chars_of(NONE_SENTINEL);
    let (x, y) = trim_bounds(t, a, b);
    if y - x == none.len() && matches_at(t, &none, x) {
        true
    } else {
        proof {
            if is_sentinel(t@.subrange(a as int, b as int)) {
                assert(occurs_at(t@, none@, x as int));
            }
        }
        false
    }
}

/// The optional-dependency block of a package's metadata, from the last
/// occurrence of its label up to the first occurrence of the terminating label
/// after it.
pub fn locate_block(details: &str) -> (r: Result<String, MetadataError>)
    ensures
        r is Ok <==> block_of(details@) is Ok,
        r is Ok ==> r->Ok_0@ == block_of(details@)->Ok_0,
        r is Err ==> r->Err_0 == block_of(details@)->Err_0,
{
    let t = chars_of(details);
    match locate(&t) {
        Ok((i, j)) => {
            let s = details.substring_char(i, j);
            let b = String::from_str(s);
            assert(b@ == t@.subrange(i as int, j as int));
            Ok(b)
        },
        Err(e) => Err(e),
    }
}

} // verus!
