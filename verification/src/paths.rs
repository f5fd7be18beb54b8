//! Parent directories of a path.

use vstd::prelude::*;

verus! {

/// The parent of a path in the path syntax of the platform that the
/// library is built for, or `None` where the path has none: the path
/// without its last component.
pub uninterp spec fn parent_of(path: Seq<char>) -> Option<Seq<char>>;

/// Trusted: `std::path::Path::parent`, on a path that is a string and
/// with its result as a string. The result is the path without its last
/// component, so it is shorter than the path; it is `None` where the path
/// ends in a root or a prefix, or is empty. That the same path always has
/// the same parent is what the name `parent_of` claims.
#[verifier::external_body]
fn parent_path(path: &str) -> (parent: Option<String>)
    ensures
        match parent {
            Some(p) => parent_of(path@) == Some(p@) && p@.len() < path@.len(),
            None => parent_of(path@) is None,
        },
{
    std::path::Path::new(path).parent().map(|p| p.to_string_lossy().into_owned())
}

/// The directories above a path, nearest first: its parent, the parent of
/// that, and so on, `depth` of them at most. For an entry that a walk met
/// `depth` levels below its root, the last of them is the root.
pub open spec fn ancestors(path: Seq<char>, depth: nat) -> Seq<Seq<char>>
    decreases depth,
{
    if depth == 0 {
        Seq::empty()
    } else {
        match parent_of(path) {
            None => Seq::empty(),
            Some(parent) => seq![parent] + ancestors(parent, (depth - 1) as nat),
        }
    }
}

/// Each path in `chain` is shorter than those before it.
pub open spec fn shrinks(chain: Seq<Seq<char>>) -> bool {
    forall|i: int, j: int| 0 <= i < j < chain.len() ==> chain[j].len() < chain[i].len()
}

/// A chain of paths that shrinks holds no path twice.
pub proof fn lemma_shrinking_chain_is_distinct(chain: Seq<Seq<char>>)
    requires
        shrinks(chain),
    ensures
        chain.no_duplicates(),
{
    assert forall|i: int, j: int| 0 <= i < chain.len() && 0 <= j < chain.len() && i != j implies chain[i]
        != chain[j] by {
        if i < j {
            assert(chain[j].len() < chain[i].len());
        } else {
            assert(chain[i].len() < chain[j].len());
        }
    }
}

/// The directories above `path`, nearest first, up to the root of a walk
/// that met the path `depth` levels below it.
pub fn ancestor_chain(path: &str, depth: usize) -> (chain: Vec<String>)
    ensures
        chain.deep_view() == ancestors(path@, depth as nat),
        shrinks(chain.deep_view()),
{
    let mut chain: Vec<String> = Vec::new();
    let mut left: usize = depth;
    let mut next: Option<String> = if depth > 0 {
        parent_path(path)
    } else {
        None
    };
    let ghost mut below: Seq<char> = path@;
    assert(chain.deep_view() =~= Seq::<Seq<char>>::empty());
    while left > 0 && next.is_some()
        invariant
            ancestors(path@, depth as nat) =~= chain.deep_view() + ancestors(below, left as nat),
            shrinks(chain.deep_view()),
            forall|i: int| 0 <= i < chain.len() ==> below.len() <= (#[trigger] chain.deep_view()[i]).len(),
            left > 0 ==> match next {
                Some(p) => parent_of(below) == Some(p@) && p@.len() < below.len(),
                None => parent_of(below) is None,
            },
        decreases left,
    {
        let parent = next.unwrap();
        let ghost before = chain.deep_view();
        left -= 1;
        next = if left > 0 {
            parent_path(parent.as_str())
        } else {
            None
        };
        proof {
            below = parent@;
        }
        chain.push(parent);
        assert(chain.deep_view() =~= before.push(below));
    }
    chain
}

} // verus!
