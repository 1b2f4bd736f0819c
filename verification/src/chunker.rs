//! Content chunking: a document is split into an ordered sequence of bounded
//! segments along natural break characters (line ends and sentence-final
//! punctuation) rather than fixed-width windows, so that semantic units are
//! severed only when a single unit exceeds the size bound.
//!
//! The segmentation is lossless: the concatenation of the segments, in order,
//! is exactly the input text.

use vstd::prelude::*;
use vstd::string::StrSliceExecFns;

verus! {

/// Characters treated as natural content boundaries: a segment prefers to end
/// just after one of these.
pub open spec fn is_break_char(c: char) -> bool {
    c == '\n' || c == '.' || c == '!' || c == '?'
}

/// The concatenation of a sequence of segments, in order.
pub open spec fn concat_segments(segs: Seq<Seq<char>>) -> Seq<char>
    decreases segs.len(),
{
    if segs.len() == 0 {
        Seq::empty()
    } else {
        concat_segments(segs.drop_last()) + segs.last()
    }
}

/// The views of a sequence of owned segments.
pub open spec fn seg_views(segs: Seq<String>) -> Seq<Seq<char>> {
    segs.map_values(|s: String| s@)
}

/// What the splitter guarantees: the segments reassemble to the input text,
/// every segment is non-empty and at most `max` characters, and every segment
/// except possibly the last ends at a break character or was cut at the size
/// bound because no break character was in reach.
pub open spec fn valid_segmentation(segs: Seq<Seq<char>>, text: Seq<char>, max: nat) -> bool {
    &&& concat_segments(segs) == text
    &&& forall|i: int| 0 <= i < segs.len() ==> 1 <= (#[trigger] segs[i]).len() <= max
    &&& forall|i: int| 0 <= i < segs.len() - 1 ==> (is_break_char((#[trigger] segs[i]).last())
        || segs[i].len() == max)
}

proof fn lemma_concat_push(segs: Seq<Seq<char>>, s: Seq<char>)
    ensures
        concat_segments(segs.push(s)) == concat_segments(segs) + s,
{
    assert(segs.push(s).drop_last() =~= segs);
    assert(segs.push(s).last() == s);
}

fn is_break(c: char) -> (r: bool)
    ensures
        r == is_break_char(c),
{
    c == '\n' || c == '.' || c == '!' || c == '?'
}

/// Splits `text` into ordered segments of at most `max_segment` characters,
/// cutting after the last break character within reach where one exists and at
/// the size bound where none does. Deterministic; an empty input yields an
/// empty sequence; no character is dropped or reordered.
#[verifier::loop_isolation(false)]
pub fn split_markdown_content(text: &str, max_segment: usize) -> (r: Vec<String>)
    requires
        max_segment >= 1,
    ensures
        valid_segmentation(seg_views(r@), text@, max_segment as nat),
        r@.len() == 0 <==> text@.len() == 0,
{
    let n = text.unicode_len();
    let mut segs: Vec<String> = Vec::new();
    let mut start: usize = 0;
    while start < n
        invariant
            n == text@.len(),
            start <= n,
            max_segment >= 1,
            concat_segments(seg_views(segs@)) == text@.take(start as int),
            forall|i: int| 0 <= i < segs@.len() ==> 1 <= (#[trigger] seg_views(segs@)[i]).len()
                <= max_segment,
            forall|i: int| 0 <= i < segs@.len() - 1 ==> (
                is_break_char((#[trigger] seg_views(segs@)[i]).last())
                || seg_views(segs@)[i].len() == max_segment),
            (start < n && segs@.len() > 0) ==> (
                is_break_char(seg_views(segs@).last().last())
                || seg_views(segs@).last().len() == max_segment),
            segs@.len() == 0 ==> start == 0,
        decreases n - start,
    {
        let end: usize;
        if n - start <= max_segment {
            end = n;
        } else {
            let mut cut: usize = 0;
            let mut p: usize = start;
            while p < start + max_segment
                invariant
                    n == text@.len(),
                    start <= p <= start + max_segment,
                    start + max_segment < n,
                    cut == 0 || (start < cut && cut <= p && is_break_char(text@[cut - 1])),
                decreases start + max_segment - p,
            {
                if is_break(text.get_char(p)) {
                    cut = p + 1;
                }
                p += 1;
            }
            if cut == 0 {
                end = start + max_segment;
            } else {
                end = cut;
            }
        }
        let seg: String = text.substring_char(start, end).to_owned();
        proof {
            lemma_concat_push(seg_views(segs@), seg@);
            assert(seg_views(segs@.push(seg)) =~= seg_views(segs@).push(seg@));
            assert(text@.take(start as int) + text@.subrange(start as int, end as int)
                =~= text@.take(end as int));
        }
        segs.push(seg);
        start = end;
    }
    proof {
        assert(text@.take(n as int) =~= text@);
        if text@.len() > 0 {
            assert(segs@.len() > 0);
        }
    }
    segs
}

} // verus!
