//! The display blocks handed to the render sink: one per shown fan-out point.
use vstd::prelude::*;
use crate::aggregate::FanOutPoint;

verus! {

/// The readable name of a symbol, as `rustc_demangle` prints it.
pub uninterp spec fn demangled(symbol: Seq<char>) -> Seq<char>;

/// Relies on `rustc_demangle::demangle` and its `Display`: the readable name of
/// a symbol, or the symbol unchanged when it is not a mangled Rust name; the
/// printed text depends on the symbol alone.
#[verifier::external_body]
fn demangle_symbol(symbol: &str) -> (r: String)
    ensures
        r@ == demangled(symbol@),
{
    rustc_demangle::demangle(symbol).to_string()
}

/// One frame line of a block.
pub struct FrameLine {
    pub text: String,
    /// The first frame of the suffix, which the sink styles apart from the rest.
    pub is_root: bool,
}

/// One block: the point's counts and one line per frame of its suffix, outermost
/// first.
pub struct DisplayBlock {
    pub thread_count: usize,
    pub sample_count: u128,
    pub lines: Vec<FrameLine>,
}

/// Lines for frame names already made readable: the first is marked as the
/// outermost.
pub fn frame_lines(names: Vec<String>) -> (r: Vec<FrameLine>)
    ensures
        r@.len() == names@.len(),
        forall|i: int|
            0 <= i < r@.len() ==> (#[trigger] r@[i]).text@ == names@[i]@ && r@[i].is_root == (i
                == 0),
{
    let mut r: Vec<FrameLine> = Vec::new();
    let mut rest = names;
    let ghost all = rest@;
    let n = rest.len();
    let mut i: usize = 0;
    while i < n
        invariant
            n == all.len(),
            i + rest@.len() == all.len(),
            rest@ == all.skip(i as int),
            r@.len() == i,
            forall|k: int|
                0 <= k < i ==> (#[trigger] r@[k]).text@ == all[k]@ && r@[k].is_root == (k == 0),
        decreases rest@.len(),
    {
        let text = rest.remove(0);
        assert(text == all[i as int]);
        assert(rest@ =~= all.skip(i + 1));
        r.push(FrameLine { text, is_root: i == 0 });
        i = i + 1;
    }
    r
}

/// The block of one point: every frame of its suffix demangled, in order.
pub fn display_block(p: &FanOutPoint) -> (r: DisplayBlock)
    ensures
        r.thread_count == p.thread_count,
        r.sample_count == p.sample_count,
        r.lines@.len() == p.suffix@.len(),
        forall|i: int|
            0 <= i < r.lines@.len() ==> (#[trigger] r.lines@[i]).text@ == demangled(p.suffix@[i]@)
                && r.lines@[i].is_root == (i == 0),
{
    let mut names: Vec<String> = Vec::new();
    let mut i: usize = 0;
    while i < p.suffix.len()
        invariant
            i <= p.suffix@.len(),
            names@.len() == i,
            forall|k: int| 0 <= k < i ==> (#[trigger] names@[k])@ == demangled(p.suffix@[k]@),
        decreases p.suffix@.len() - i,
    {
        names.push(demangle_symbol(p.suffix[i].as_str()));
        i = i + 1;
    }
    let lines = frame_lines(names);
    DisplayBlock { thread_count: p.thread_count, sample_count: p.sample_count, lines }
}

/// The blocks of the ranked points, in rank order.
pub fn display_blocks(points: &Vec<FanOutPoint>) -> (r: Vec<DisplayBlock>)
    ensures
        r@.len() == points@.len(),
        forall|j: int|
            0 <= j < r@.len() ==> (#[trigger] r@[j]).thread_count == points@[j].thread_count
                && r@[j].sample_count == points@[j].sample_count && r@[j].lines@.len()
                == points@[j].suffix@.len() && forall|i: int|
                0 <= i < r@[j].lines@.len() ==> (#[trigger] r@[j].lines@[i]).text@ == demangled(
                    points@[j].suffix@[i]@,
                ) && r@[j].lines@[i].is_root == (i == 0),
{
    let mut r: Vec<DisplayBlock> = Vec::new();
    let mut j: usize = 0;
    while j < points.len()
        invariant
            j <= points@.len(),
            r@.len() == j,
            forall|k: int|
                0 <= k < j ==> (#[trigger] r@[k]).thread_count == points@[k].thread_count
                    && r@[k].sample_count == points@[k].sample_count && r@[k].lines@.len()
                    == points@[k].suffix@.len() && forall|i: int|
                    0 <= i < r@[k].lines@.len() ==> (#[trigger] r@[k].lines@[i]).text@
                        == demangled(points@[k].suffix@[i]@) && r@[k].lines@[i].is_root == (i
                        == 0),
        decreases points@.len() - j,
    {
        r.push(display_block(&points[j]));
        j = j + 1;
    }
    r
}

} // verus!
