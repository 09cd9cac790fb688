use vstd::prelude::*;

pub mod encryption;
pub mod logging;
pub mod node;
pub mod screen;
pub mod serialization;

verus! {

/// An absolute terminal coordinate: (column, row).
pub type Coords = (u16, u16);

/// Stable identity of a node, independent of its content.
pub type NodeID = u64;

#[derive(Debug, PartialEq, Eq, Structural)]
pub enum Dir {
    L,
    R,
}

/// Absolute difference of the column components of two coordinates.
pub open spec fn x_dist(c1: Coords, c2: Coords) -> int {
    if c1.0 >= c2.0 {
        c1.0 - c2.0
    } else {
        c2.0 - c1.0
    }
}

/// Absolute difference of the row components of two coordinates.
pub open spec fn y_dist(c1: Coords, c2: Coords) -> int {
    if c1.1 >= c2.1 {
        c1.1 - c2.1
    } else {
        c2.1 - c1.1
    }
}

/// Componentwise distance between two screen coordinates.
pub fn distances(c1: Coords, c2: Coords) -> (r: (u16, u16))
    ensures
        r.0 == x_dist(c1, c2),
        r.1 == y_dist(c1, c2),
{
    let xcost: u16 = if c1.0 >= c2.0 {
        c1.0 - c2.0
    } else {
        c2.0 - c1.0
    };
    let ycost: u16 = if c1.1 >= c2.1 {
        c1.1 - c2.1
    } else {
        c2.1 - c1.1
    };
    (xcost, ycost)
}

/// For every node, the height is exactly 1 whenever the node is collapsed
/// or has no children, regardless of how many descendants it has.
pub proof fn lemma_height_one(n: crate::node::NodeV)
    ensures
        (n.collapsed || n.children.len() == 0) ==> crate::node::spec_height(n) == 1,
{
}

/// Hit-testing is idempotent under re-query: any two lookups of the same
/// coordinate on an unchanged screen resolve to the same anchor and node.
pub proof fn lemma_hit_test_idempotent(
    s: crate::screen::Screen,
    c: Coords,
    r1: Option<(Coords, NodeID)>,
    r2: Option<(Coords, NodeID)>,
)
    requires
        r1 == crate::screen::spec_hit(s@.entries, c.0, c.1),
        r2 == crate::screen::spec_hit(s@.entries, c.0, c.1),
    ensures
        r1 == r2,
{
}

/// Manhattan distance between two screen coordinates.
pub fn cost(c1: Coords, c2: Coords) -> (r: u16)
    requires
        x_dist(c1, c2) + y_dist(c1, c2) <= u16::MAX,
    ensures
        r == x_dist(c1, c2) + y_dist(c1, c2),
{
    let (xcost, ycost) = distances(c1, c2);
    xcost + ycost
}

#[verifier::external_type_specification]
#[verifier::external_body]
pub struct ExRegex(regex::Regex);

/// What a compiled regular expression holds: its pattern text.
pub uninterp spec fn regex_pattern(re: regex::Regex) -> Seq<char>;

/// Whether a pattern matches anywhere in a text; deterministic in both.
pub uninterp spec fn regex_is_match(pattern: Seq<char>, text: Seq<char>) -> bool;

/// The first capture group of each successive non-overlapping match of a
/// pattern in a text, in order; deterministic in both.
pub uninterp spec fn regex_group1(pattern: Seq<char>, text: Seq<char>) -> Seq<Seq<char>>;

/// The views of a sequence of owned strings.
pub open spec fn strings_v(s: Seq<String>) -> Seq<Seq<char>> {
    s.map_values(|x: String| x@)
}

/// Relies on Regex::is_match: deterministic in the compiled pattern and
/// the text searched.
#[verifier::external_body]
fn re_is_match(re: &regex::Regex, on: &str) -> (r: bool)
    ensures
        r == regex_is_match(regex_pattern(*re), on@),
{
    re.is_match(on)
}

/// Relies on Regex::captures_iter and Captures::get: each successive
/// non-overlapping match's first capture group, in order, skipping a
/// group that did not participate in its match.
#[verifier::external_body]
fn re_group1(re: &regex::Regex, on: &str) -> (r: Vec<String>)
    ensures
        strings_v(r@) == regex_group1(regex_pattern(*re), on@),
{
    let mut ret: Vec<String> = Vec::new();
    for cap in re.captures_iter(on) {
        if let Some(m) = cap.get(1) {
            ret.push(m.as_str().to_string());
        }
    }
    ret
}

/// The first capture group of every match of `re` in `on`, in order; an
/// input the pattern does not match anywhere yields nothing.
pub fn re_matches(re: &regex::Regex, on: &str) -> (r: Vec<String>)
    ensures
        strings_v(r@) == (if regex_is_match(regex_pattern(*re), on@) {
            regex_group1(regex_pattern(*re), on@)
        } else {
            Seq::<Seq<char>>::empty()
        }),
{
    let mut ret: Vec<String> = Vec::new();
    if re_is_match(re, on) {
        let caps = re_group1(re, on);
        return caps;
    }
    assert(strings_v(ret@) =~= Seq::<Seq<char>>::empty());
    ret
}

} // verus!
