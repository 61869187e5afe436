//! The frame of an array of records: where, in the bytes of a JSON array,
//! one element ends and the next begins.
//!
//! Only the frame is read here: brackets, braces, strings and the commas
//! between the elements. What an element holds is decoded elsewhere, one
//! element at a time, so that an element that cannot be decoded costs no
//! more than itself.

use crate::pipeline::json_parser::DecodeError;
use crate::pipeline::zip_reader::{blank, find_interior, interior, is_blank, is_blank_byte};
use vstd::string::*;
use vstd::prelude::*;

verus! {

/// Where a scan stands: how many brackets and braces are open, whether it is
/// inside a string, and whether the last byte of the string was a backslash
/// that escapes the next.
pub struct ScanState {
    pub depth: nat,
    pub in_string: bool,
    pub escaped: bool,
}

/// Outside of everything.
pub open spec fn outside() -> ScanState {
    ScanState { depth: 0, in_string: false, escaped: false }
}

/// The state after one more byte; `None` where the byte closes what was
/// never opened.
pub open spec fn scan_byte(st: ScanState, b: u8) -> Option<ScanState> {
    if st.in_string {
        if st.escaped {
            Some(ScanState { escaped: false, ..st })
        } else if b == 0x5c {
            Some(ScanState { escaped: true, ..st })
        } else if b == 0x22 {
            Some(ScanState { in_string: false, ..st })
        } else {
            Some(st)
        }
    } else if b == 0x22 {
        Some(ScanState { in_string: true, ..st })
    } else if b == 0x5b || b == 0x7b {
        Some(ScanState { depth: st.depth + 1, ..st })
    } else if b == 0x5d || b == 0x7d {
        if st.depth == 0 {
            None
        } else {
            Some(ScanState { depth: (st.depth - 1) as nat, ..st })
        }
    } else {
        Some(st)
    }
}

/// The state after the bytes of `s`, read from `st`.
pub open spec fn scan(s: Seq<u8>, st: ScanState) -> Option<ScanState>
    decreases s.len(),
{
    if s.len() == 0 {
        Some(st)
    } else {
        match scan(s.drop_last(), st) {
            Some(mid) => scan_byte(mid, s.last()),
            None => None,
        }
    }
}

/// A comma in this state parts two elements.
pub open spec fn parts_elements(st: Option<ScanState>, b: u8) -> bool {
    match st {
        Some(st) => b == 0x2c && st.depth == 0 && !st.in_string,
        None => false,
    }
}

/// How many commas of `s`, read from `st`, part two elements.
pub open spec fn separators(s: Seq<u8>, st: ScanState) -> nat
    decreases s.len(),
{
    if s.len() == 0 {
        0
    } else {
        separators(s.drop_last(), st) + if parts_elements(scan(s.drop_last(), st), s.last()) {
            1nat
        } else {
            0nat
        }
    }
}

/// How many elements a body holds, by its frame: none where it is blank,
/// else one more than it has commas that part elements.
pub open spec fn body_elements(body: Seq<u8>) -> nat {
    if blank(body) {
        0
    } else {
        separators(body, outside()) + 1
    }
}

/// The bytes are the frame of an array: blanks, an opening bracket, a body
/// in which every bracket, brace and string that opens also closes, the
/// closing bracket, and blanks.
pub open spec fn well_framed(doc: Seq<u8>) -> bool {
    match doc.index_of_first(0x5b) {
        Some(open) => {
            let rest = doc.subrange(open + 1, doc.len() as int);
            &&& blank(doc.subrange(0, open))
            &&& match rest.index_of_last(0x5d) {
                Some(close) => {
                    &&& blank(rest.subrange(close + 1, rest.len() as int))
                    &&& scan(rest.subrange(0, close), outside()) == Some(outside())
                },
                None => false,
            }
        },
        None => false,
    }
}

/// How many elements an array holds, by its frame.
pub open spec fn element_count(doc: Seq<u8>) -> nat {
    match interior(doc) {
        Some(body) => body_elements(body),
        None => 0,
    }
}

/// The stretches of a body between the commas that part elements: for each
/// where it begins and where it ends.
pub open spec fn pieces(body: Seq<u8>) -> Seq<(int, int)>
    decreases body.len(),
{
    if body.len() == 0 {
        seq![(0int, 0int)]
    } else {
        let before = pieces(body.drop_last());
        if parts_elements(scan(body.drop_last(), outside()), body.last()) {
            before.push((body.len() as int, body.len() as int))
        } else {
            before.drop_last().push((before.last().0, body.len() as int))
        }
    }
}

/// Where the elements of an array stand in its bytes: none for a blank body,
/// else the stretches of the body, counted from the beginning of the bytes.
pub open spec fn element_spans_of(doc: Seq<u8>) -> Seq<(int, int)> {
    match doc.index_of_first(0x5b) {
        Some(open) => match interior(doc) {
            Some(body) => if blank(body) {
                Seq::empty()
            } else {
                Seq::new(
                    pieces(body).len(),
                    |i: int| (pieces(body)[i].0 + open + 1, pieces(body)[i].1 + open + 1),
                )
            },
            None => Seq::empty(),
        },
        None => Seq::empty(),
    }
}

/// Reading `a` and then `b` is reading `a + b`.
pub proof fn lemma_scan_concat(a: Seq<u8>, b: Seq<u8>, st: ScanState)
    ensures
        scan(a + b, st) == match scan(a, st) {
            Some(mid) => scan(b, mid),
            None => None,
        },
        match scan(a, st) {
            Some(mid) => separators(a + b, st) == separators(a, st) + separators(b, mid),
            None => true,
        },
    decreases b.len(),
{
    if b.len() == 0 {
        assert(a + b =~= a);
    } else {
        assert((a + b).drop_last() =~= a + b.drop_last());
        assert((a + b).last() == b.last());
        lemma_scan_concat(a, b.drop_last(), st);
    }
}

/// There is one stretch more than there are commas that part elements, and
/// the stretches lie in the body, one behind the other.
pub proof fn lemma_pieces(body: Seq<u8>)
    ensures
        pieces(body).len() == separators(body, outside()) + 1,
        forall|i: int|
            0 <= i < pieces(body).len() ==> 0 <= (#[trigger] pieces(body)[i]).0 <= pieces(body)[i].1
                <= body.len(),
        pieces(body).last().1 == body.len(),
    decreases body.len(),
{
    if body.len() > 0 {
        lemma_pieces(body.drop_last());
        let before = pieces(body.drop_last());
        let now = pieces(body);
        assert forall|i: int| 0 <= i < now.len() implies 0 <= (#[trigger] now[i]).0 <= now[i].1
            <= body.len() by {
            if i < before.len() - 1 {
                assert(now[i] == before[i]);
            } else if i == before.len() - 1 {
                assert(before[i].0 <= before[i].1);
            }
        }
    }
}

/// The stretches of `body` that `spans` name, in order.
pub open spec fn stretches(body: Seq<u8>, spans: Seq<(int, int)>) -> Seq<Seq<u8>> {
    Seq::new(spans.len(), |i: int| body.subrange(spans[i].0, spans[i].1))
}

/// The stretches in order, with a comma between each two neighbours.
pub open spec fn joined_by_commas(parts: Seq<Seq<u8>>) -> Seq<u8>
    decreases parts.len(),
{
    if parts.len() == 0 {
        Seq::empty()
    } else if parts.len() == 1 {
        parts[0]
    } else {
        joined_by_commas(parts.drop_last()) + seq![0x2cu8] + parts.last()
    }
}

/// The stretches of a body are the whole body and nothing else: put
/// together again with commas between them, they give the body back.
pub proof fn lemma_pieces_cover(body: Seq<u8>)
    ensures
        joined_by_commas(stretches(body, pieces(body))) == body,
    decreases body.len(),
{
    lemma_pieces(body);
    if body.len() == 0 {
        let parts = stretches(body, pieces(body));
        assert(parts.len() == 1);
        assert(parts[0] =~= Seq::<u8>::empty());
        assert(body =~= Seq::<u8>::empty());
    } else {
        let init = body.drop_last();
        lemma_pieces(init);
        lemma_pieces_cover(init);
        let before = pieces(init);
        let now = pieces(body);
        let parts_before = stretches(init, before);
        let parts_now = stretches(body, now);
        assert(body =~= init.push(body.last()));
        if parts_elements(scan(init, outside()), body.last()) {
            assert(parts_now.drop_last() =~= parts_before) by {
                assert forall|i: int| 0 <= i < before.len() implies body.subrange(
                    before[i].0,
                    before[i].1,
                ) == init.subrange(before[i].0, before[i].1) by {
                    assert(body.subrange(before[i].0, before[i].1) =~= init.subrange(
                        before[i].0,
                        before[i].1,
                    ));
                }
            }
            assert(parts_now.last() =~= Seq::<u8>::empty());
            assert(joined_by_commas(parts_now) =~= body);
        } else {
            let last = before.len() - 1;
            assert(parts_now.last() =~= parts_before.last().push(body.last()));
            assert(parts_now.drop_last() =~= parts_before.drop_last()) by {
                assert forall|i: int| 0 <= i < last implies body.subrange(before[i].0, before[i].1)
                    == init.subrange(before[i].0, before[i].1) by {
                    assert(body.subrange(before[i].0, before[i].1) =~= init.subrange(
                        before[i].0,
                        before[i].1,
                    ));
                }
            }
            assert(joined_by_commas(parts_now) =~= body);
        }
    }
}

/// Whether the bytes `from..to` of `doc` are all blank.
fn all_blank(doc: &Vec<u8>, from: usize, to: usize) -> (r: bool)
    requires
        from <= to <= doc@.len(),
    ensures
        r == blank(doc@.subrange(from as int, to as int)),
{
    let mut k: usize = from;
    while k < to
        invariant
            from <= k <= to <= doc@.len(),
            forall|j: int| from <= j < k ==> is_blank_byte(doc@[j]),
        decreases to - k,
    {
        if !is_blank(doc[k]) {
            assert(!is_blank_byte(doc@.subrange(from as int, to as int)[k - from]));
            return false;
        }
        k += 1;
    }
    assert forall|j: int| 0 <= j < to - from implies is_blank_byte(
        #[trigger] doc@.subrange(from as int, to as int)[j],
    ) by {
        assert(doc@.subrange(from as int, to as int)[j] == doc@[from + j]);
    }
    true
}

/// The views of a run of spans, in order.
pub open spec fn spans_view(spans: Seq<(usize, usize)>) -> Seq<(int, int)> {
    Seq::new(spans.len(), |i: int| (spans[i].0 as int, spans[i].1 as int))
}

/// Frames an array of records: says where each element stands in the bytes,
/// without reading what it holds.
///
/// The result is `None` where the bytes are not the frame of an array. Else
/// it holds one span for each element, in order; each span lies within the
/// bytes.
pub fn element_spans(doc: &Vec<u8>) -> (r: Option<Vec<(usize, usize)>>)
    ensures
        match r {
            Some(spans) => {
                &&& well_framed(doc@)
                &&& spans_view(spans@) == element_spans_of(doc@)
                &&& spans@.len() == element_count(doc@)
                &&& forall|i: int|
                    0 <= i < spans@.len() ==> (#[trigger] spans@[i]).0 <= spans@[i].1 <= doc@.len()
            },
            None => !well_framed(doc@),
        },
{
    let (from, to) = match find_interior(doc) {
        Some(found) => found,
        None => {
            return None;
        },
    };
    let ghost body = doc@.subrange(from as int, to as int);
    let ghost rest = doc@.subrange(from as int, doc@.len() as int);
    assert(rest.subrange(0, to - from) =~= body);
    assert(rest.subrange(to - from + 1, rest.len() as int) =~= doc@.subrange(to + 1, doc@.len() as int));
    assert(to < doc.len());
    if !all_blank(doc, 0, from - 1) || !all_blank(doc, to + 1, doc.len()) {
        return None;
    }
    let mut done: Vec<(usize, usize)> = Vec::new();
    let mut start: usize = from;
    let mut depth: usize = 0;
    let mut in_string = false;
    let mut escaped = false;
    let mut some_byte = false;
    let mut i: usize = from;
    assert(body.subrange(0, 0) =~= Seq::<u8>::empty());
    assert(spans_view(done@) =~= Seq::<(int, int)>::empty());
    while i < to
        invariant
            0 < from <= i <= to < doc@.len(),
            from <= start <= i,
            body == doc@.subrange(from as int, to as int),
            doc@.index_of_first(0x5b) == Some(from - 1),
            doc@.subrange(from as int, doc@.len() as int).index_of_last(0x5d) == Some(to - from),
            doc@.subrange(from as int, doc@.len() as int).subrange(0, to - from) == body,
            depth <= i - from,
            scan(body.subrange(0, i - from), outside()) == Some(
                ScanState { depth: depth as nat, in_string, escaped },
            ),
            some_byte == !blank(body.subrange(0, i - from)),
            pieces(body.subrange(0, i - from)).len() == done@.len() + 1,
            pieces(body.subrange(0, i - from)).last() == (start - from, i - from),
            forall|k: int|
                0 <= k < done@.len() ==> (#[trigger] done@[k]).0 - from == pieces(
                    body.subrange(0, i - from),
                )[k].0 && done@[k].1 - from == pieces(body.subrange(0, i - from))[k].1,
            forall|k: int| 0 <= k < done@.len() ==> (#[trigger] done@[k]).0 <= done@[k].1 <= i,
        decreases to - i,
    {
        let b = doc[i];
        let ghost seen = body.subrange(0, i - from);
        let ghost next = body.subrange(0, i - from + 1);
        assert(next.drop_last() =~= seen);
        assert(next.last() == b);
        let ghost before = pieces(seen);
        if !is_blank(b) {
            some_byte = true;
            assert(!is_blank_byte(next[i - from]));
        } else if !some_byte {
            assert forall|j: int| 0 <= j < next.len() implies is_blank_byte(#[trigger] next[j]) by {
                if j < seen.len() {
                    assert(seen[j] == next[j]);
                }
            }
        }
        proof {
            if !blank(seen) {
                let j = choose|j: int| 0 <= j < seen.len() && !is_blank_byte(#[trigger] seen[j]);
                assert(next[j] == seen[j]);
            }
        }
        if in_string {
            if escaped {
                escaped = false;
            } else if b == 0x5c {
                escaped = true;
            } else if b == 0x22 {
                in_string = false;
            }
            assert(pieces(next) =~= before.drop_last().push((start - from, i - from + 1)));
        } else if b == 0x22 {
            in_string = true;
            assert(pieces(next) =~= before.drop_last().push((start - from, i - from + 1)));
        } else if b == 0x5b || b == 0x7b {
            depth += 1;
            assert(pieces(next) =~= before.drop_last().push((start - from, i - from + 1)));
        } else if b == 0x5d || b == 0x7d {
            if depth == 0 {
                proof {
                    assert(scan(next, outside()) is None);
                    assert(body =~= next + body.subrange(i - from + 1, to - from));
                    lemma_scan_concat(next, body.subrange(i - from + 1, to - from), outside());
                }
                return None;
            }
            depth -= 1;
            assert(pieces(next) =~= before.drop_last().push((start - from, i - from + 1)));
        } else if b == 0x2c && depth == 0 {
            done.push((start, i));
            start = i + 1;
            assert(pieces(next) =~= before.push((i - from + 1, i - from + 1)));
        } else {
            assert(pieces(next) =~= before.drop_last().push((start - from, i - from + 1)));
        }
        i += 1;
    }
    assert(body.subrange(0, to - from) =~= body);
    if depth != 0 || in_string || escaped {
        return None;
    }
    proof {
        lemma_pieces(body);
    }
    if some_byte {
        done.push((start, to));
        assert(spans_view(done@) =~= element_spans_of(doc@));
    } else {
        done = Vec::new();
        assert(spans_view(done@) =~= element_spans_of(doc@));
    }
    Some(done)
}

/// What is said of bytes that are not the frame of an array.
pub const NOT_AN_ARRAY: &'static str = "the conversations are not a JSON array";

/// Frames the array of the conversations for decoding: the spans of its
/// elements, or, for bytes that are not the frame of an array, the one error
/// that stands for all of them.
pub fn frame_conversations(doc: &Vec<u8>) -> (r: Result<Vec<(usize, usize)>, DecodeError>)
    ensures
        match r {
            Ok(spans) => {
                &&& well_framed(doc@)
                &&& spans_view(spans@) == element_spans_of(doc@)
                &&& spans@.len() == element_count(doc@)
                &&& forall|i: int|
                    0 <= i < spans@.len() ==> (#[trigger] spans@[i]).0 <= spans@[i].1 <= doc@.len()
            },
            Err(error) => !well_framed(doc@) && error.index == 0 && error.message@ == NOT_AN_ARRAY@,
        },
{
    match element_spans(doc) {
        Some(spans) => Ok(spans),
        None => Err(DecodeError { index: 0, message: NOT_AN_ARRAY.to_owned() }),
    }
}

} // verus!
