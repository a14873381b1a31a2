//! Annotator: assembles annotated documents from chunk streams and resolved,
//! aligned extractions, with first-pass-wins merging across passes.

use vstd::prelude::*;

use crate::chunking::{ChunkIterator, TextChunk};
use crate::data::{
    AlignmentStatus, AnnotatedDocument, CharInterval, Document, Extraction, ExtractionView,
};
use crate::inference::InferenceOutputError;
use crate::resolver::{self, Resolver};
use crate::tokenizer::TokenInterval;

verus! {

/// Error raised when identical document ids are present.
#[derive(Debug)]
pub struct DocumentRepeatError(pub String);

/// Two extractions overlap: both have char intervals with both bounds set,
/// and each starts before the other ends.
pub open spec fn spec_extractions_overlap(a: ExtractionView, b: ExtractionView) -> bool {
    &&& a.char_interval is Some
    &&& b.char_interval is Some
    &&& a.char_interval->0.start_pos is Some
    &&& a.char_interval->0.end_pos is Some
    &&& b.char_interval->0.start_pos is Some
    &&& b.char_interval->0.end_pos is Some
    &&& a.char_interval->0.start_pos->0 < b.char_interval->0.end_pos->0
    &&& b.char_interval->0.start_pos->0 < a.char_interval->0.end_pos->0
}

/// Decides whether two extractions overlap in their character intervals.
pub fn extractions_overlap(extraction1: &Extraction, extraction2: &Extraction) -> (r: bool)
    ensures
        r == spec_extractions_overlap(extraction1@, extraction2@),
{
    let (s1, e1) = match &extraction1.char_interval {
        Some(ci) => match (ci.start_pos, ci.end_pos) {
            (Some(s), Some(e)) => (s, e),
            _ => {
                return false;
            },
        },
        None => {
            return false;
        },
    };
    let (s2, e2) = match &extraction2.char_interval {
        Some(ci) => match (ci.start_pos, ci.end_pos) {
            (Some(s), Some(e)) => (s, e),
            _ => {
                return false;
            },
        },
        None => {
            return false;
        },
    };
    s1 < e2 && s2 < e1
}

/// The extraction conflicts with nothing already accepted.
pub open spec fn no_conflict(acc: Seq<ExtractionView>, e: ExtractionView) -> bool {
    forall|i: int| 0 <= i < acc.len() ==> !spec_extractions_overlap(e, #[trigger] acc[i])
}

/// Accepted extractions after merging one later pass into `acc`: each
/// extraction is added only when it overlaps nothing already accepted.
pub open spec fn spec_merge_pass(acc: Seq<ExtractionView>, pass: Seq<ExtractionView>) -> Seq<
    ExtractionView,
>
    decreases pass.len(),
{
    if pass.len() == 0 {
        acc
    } else {
        let acc2 = if no_conflict(acc, pass[0]) {
            acc.push(pass[0])
        } else {
            acc
        };
        spec_merge_pass(acc2, pass.subrange(1, pass.len() as int))
    }
}

/// Accepted extractions after merging the later passes into `acc` in order.
pub open spec fn spec_merge_rest(acc: Seq<ExtractionView>, rest: Seq<Seq<ExtractionView>>) -> Seq<
    ExtractionView,
>
    decreases rest.len(),
{
    if rest.len() == 0 {
        acc
    } else {
        spec_merge_rest(spec_merge_pass(acc, rest[0]), rest.subrange(1, rest.len() as int))
    }
}

/// First-pass-wins merge over all passes: the first pass is kept whole, later
/// passes add only non-overlapping extractions.
pub open spec fn spec_merge_all(passes: Seq<Seq<ExtractionView>>) -> Seq<ExtractionView> {
    if passes.len() == 0 {
        Seq::empty()
    } else {
        spec_merge_rest(passes[0], passes.subrange(1, passes.len() as int))
    }
}

/// The views of a list of extractions.
pub open spec fn extraction_views(s: Seq<Extraction>) -> Seq<ExtractionView> {
    s.map_values(|e: Extraction| e@)
}

/// The views of a list of passes.
pub open spec fn pass_views(s: Seq<Vec<Extraction>>) -> Seq<Seq<ExtractionView>> {
    s.map_values(|p: Vec<Extraction>| extraction_views(p@))
}

/// Merges extractions from multiple passes: extractions of the first pass
/// are kept; an extraction of a later pass is added only when its char
/// interval overlaps no already-accepted extraction.
pub fn merge_non_overlapping_extractions(all_extractions: &Vec<Vec<Extraction>>) -> (r: Vec<
    Extraction,
>)
    ensures
        extraction_views(r@) == spec_merge_all(pass_views(all_extractions@)),
{
    let mut merged: Vec<Extraction> = Vec::new();
    if all_extractions.len() == 0 {
        proof {
            assert(extraction_views(merged@) =~= Seq::<ExtractionView>::empty());
        }
        return merged;
    }
    let first = &all_extractions[0];
    let mut i: usize = 0;
    while i < first.len()
        invariant
            all_extractions@.len() > 0,
            first@ == all_extractions@[0]@,
            i <= first@.len(),
            merged@.len() == i,
            extraction_views(merged@) == extraction_views(first@).take(i as int),
        decreases first@.len() - i,
    {
        let ghost before = merged@;
        merged.push(first[i].clone());
        proof {
            assert(merged@[i as int]@ == first@[i as int]@);
            assert forall|j: int| 0 <= j < i + 1 implies extraction_views(merged@)[j]
                == extraction_views(first@).take(i + 1)[j] by {
                if j < i {
                    assert(merged@[j] == before[j]);
                    assert(extraction_views(before)[j] == extraction_views(first@).take(
                        i as int,
                    )[j]);
                }
            }
            assert(extraction_views(merged@) =~= extraction_views(first@).take(i + 1));
        }
        i = i + 1;
    }
    proof {
        assert(extraction_views(first@).take(first@.len() as int) =~= extraction_views(first@));
        assert(extraction_views(first@) =~= pass_views(all_extractions@)[0]);
    }
    let mut p: usize = 1;
    while p < all_extractions.len()
        invariant
            1 <= p <= all_extractions@.len(),
            extraction_views(merged@) == spec_merge_rest(
                pass_views(all_extractions@)[0],
                pass_views(all_extractions@).subrange(1, p as int),
            ),
        decreases all_extractions@.len() - p,
    {
        let pass = &all_extractions[p];
        let ghost acc0 = extraction_views(merged@);
        let mut k: usize = 0;
        while k < pass.len()
            invariant
                p < all_extractions@.len(),
                pass@ == all_extractions@[p as int]@,
                k <= pass@.len(),
                extraction_views(merged@) == spec_merge_pass(
                    acc0,
                    extraction_views(pass@).take(k as int),
                ),
            decreases pass@.len() - k,
        {
            let e = &pass[k];
            let mut overlaps = false;
            let mut m: usize = 0;
            while m < merged.len()
                invariant
                    m <= merged@.len(),
                    overlaps == exists|j: int|
                        0 <= j < m && spec_extractions_overlap(
                            pass@[k as int]@,
                            #[trigger] merged@[j]@,
                        ),
                    pass@ == all_extractions@[p as int]@,
                    p < all_extractions@.len(),
                    k < pass@.len(),
                    e@ == pass@[k as int]@,
                decreases merged@.len() - m,
            {
                if extractions_overlap(e, &merged[m]) {
                    overlaps = true;
                    proof {
                        assert(spec_extractions_overlap(pass@[k as int]@, merged@[m as int]@));
                    }
                } else {
                    proof {
                        if exists|j: int|
                            0 <= j < m + 1 && spec_extractions_overlap(
                                pass@[k as int]@,
                                #[trigger] merged@[j]@,
                            ) {
                            let j = choose|j: int|
                                0 <= j < m + 1 && spec_extractions_overlap(
                                    pass@[k as int]@,
                                    #[trigger] merged@[j]@,
                                );
                            assert(j < m ==> exists|j2: int|
                                0 <= j2 < m && spec_extractions_overlap(
                                    pass@[k as int]@,
                                    #[trigger] merged@[j2]@,
                                ));
                        }
                    }
                }
                m = m + 1;
            }
            let ghost acc_now = extraction_views(merged@);
            proof {
                assert(overlaps == !no_conflict(acc_now, pass@[k as int]@)) by {
                    if overlaps {
                        let j = choose|j: int|
                            0 <= j < merged@.len() && spec_extractions_overlap(
                                pass@[k as int]@,
                                #[trigger] merged@[j]@,
                            );
                        assert(acc_now[j] == merged@[j]@);
                    } else {
                        assert forall|j: int|
                            0 <= j < acc_now.len() implies !spec_extractions_overlap(
                            pass@[k as int]@,
                            #[trigger] acc_now[j],
                        ) by {
                            assert(acc_now[j] == merged@[j]@);
                        }
                    }
                }
            }
            if !overlaps {
                merged.push(e.clone());
                proof {
                    assert(extraction_views(merged@) =~= acc_now.push(pass@[k as int]@));
                }
            }
            proof {
                let pk = extraction_views(pass@).take(k as int);
                let pk1 = extraction_views(pass@).take(k + 1);
                assert(pk1.drop_first() =~= extraction_views(pass@).subrange(1, k + 1));
                lemma_merge_pass_step(acc0, extraction_views(pass@), k as int);
            }
            k = k + 1;
        }
        proof {
            assert(extraction_views(pass@).take(pass@.len() as int) =~= extraction_views(pass@));
            assert(extraction_views(pass@) == pass_views(all_extractions@)[p as int]);
            lemma_merge_rest_step(
                pass_views(all_extractions@)[0],
                pass_views(all_extractions@),
                p as int,
            );
        }
        p = p + 1;
    }
    proof {
        assert(pass_views(all_extractions@).subrange(1, all_extractions@.len() as int)
            =~= pass_views(all_extractions@).subrange(
            1,
            pass_views(all_extractions@).len() as int,
        ));
    }
    merged
}

/// Merging one more extraction of a pass extends the prefix merge by one
/// step.
proof fn lemma_merge_pass_step(acc0: Seq<ExtractionView>, pass: Seq<ExtractionView>, k: int)
    requires
        0 <= k < pass.len(),
    ensures
        spec_merge_pass(acc0, pass.take(k + 1)) == {
            let acc = spec_merge_pass(acc0, pass.take(k));
            if no_conflict(acc, pass[k]) {
                acc.push(pass[k])
            } else {
                acc
            }
        },
    decreases k,
{
    lemma_merge_pass_snoc(acc0, pass.take(k + 1));
    assert(pass.take(k + 1).drop_last() =~= pass.take(k));
    assert(pass.take(k + 1).last() == pass[k]);
}

/// Merging a pass handles its last extraction last.
proof fn lemma_merge_pass_snoc(acc: Seq<ExtractionView>, pass: Seq<ExtractionView>)
    requires
        pass.len() > 0,
    ensures
        spec_merge_pass(acc, pass) == {
            let acc2 = spec_merge_pass(acc, pass.drop_last());
            if no_conflict(acc2, pass.last()) {
                acc2.push(pass.last())
            } else {
                acc2
            }
        },
    decreases pass.len(),
{
    if pass.len() == 1 {
        assert(pass.drop_last() =~= Seq::<ExtractionView>::empty());
        assert(pass.subrange(1, pass.len() as int) =~= Seq::<ExtractionView>::empty());
        let acc2 = if no_conflict(acc, pass[0]) {
            acc.push(pass[0])
        } else {
            acc
        };
        assert(spec_merge_pass(acc2, pass.subrange(1, pass.len() as int)) == acc2);
        assert(spec_merge_pass(acc, pass) == acc2);
        assert(spec_merge_pass(acc, pass.drop_last()) == acc);
        assert(pass.last() == pass[0]);
    } else {
        let acc2 = if no_conflict(acc, pass[0]) {
            acc.push(pass[0])
        } else {
            acc
        };
        let sub = pass.subrange(1, pass.len() as int);
        lemma_merge_pass_snoc(acc2, sub);
        assert(sub.drop_last() =~= pass.drop_last().subrange(1, pass.drop_last().len() as int));
        assert(sub.last() == pass.last());
        assert(pass.drop_last()[0] == pass[0]);
        assert(pass.drop_last().len() > 0);
        assert(spec_merge_pass(acc, pass) == spec_merge_pass(acc2, sub));
        assert(spec_merge_pass(acc, pass.drop_last()) == spec_merge_pass(acc2, sub.drop_last()));
        assert(spec_merge_pass(acc2, sub) == {
            let a3 = spec_merge_pass(acc2, sub.drop_last());
            if no_conflict(a3, sub.last()) {
                a3.push(sub.last())
            } else {
                a3
            }
        });
    }
}

/// Merging one more pass extends the prefix merge by one step.
proof fn lemma_merge_rest_step(acc0: Seq<ExtractionView>, passes: Seq<Seq<ExtractionView>>, p: int)
    requires
        1 <= p < passes.len(),
    ensures
        spec_merge_rest(acc0, passes.subrange(1, p + 1)) == spec_merge_pass(
            spec_merge_rest(acc0, passes.subrange(1, p)),
            passes[p],
        ),
    decreases p,
{
    lemma_merge_rest_snoc(acc0, passes.subrange(1, p + 1));
    assert(passes.subrange(1, p + 1).drop_last() =~= passes.subrange(1, p));
    assert(passes.subrange(1, p + 1).last() == passes[p]);
}

/// Merging a list of passes handles its last pass last.
proof fn lemma_merge_rest_snoc(acc: Seq<ExtractionView>, rest: Seq<Seq<ExtractionView>>)
    requires
        rest.len() > 0,
    ensures
        spec_merge_rest(acc, rest) == spec_merge_pass(
            spec_merge_rest(acc, rest.drop_last()),
            rest.last(),
        ),
    decreases rest.len(),
{
    if rest.len() == 1 {
        assert(rest.drop_last() =~= Seq::<Seq<ExtractionView>>::empty());
        assert(rest.subrange(1, rest.len() as int) =~= Seq::<Seq<ExtractionView>>::empty());
        assert(spec_merge_rest(spec_merge_pass(acc, rest[0]), rest.subrange(1, rest.len() as int))
            == spec_merge_pass(acc, rest[0]));
        assert(spec_merge_rest(acc, rest) == spec_merge_pass(acc, rest[0]));
        assert(spec_merge_rest(acc, rest.drop_last()) == acc);
        assert(rest.last() == rest[0]);
    } else {
        let acc2 = spec_merge_pass(acc, rest[0]);
        let sub = rest.subrange(1, rest.len() as int);
        lemma_merge_rest_snoc(acc2, sub);
        assert(sub.drop_last() =~= rest.drop_last().subrange(1, rest.drop_last().len() as int));
        assert(sub.last() == rest.last());
        assert(rest.drop_last()[0] == rest[0]);
        assert(rest.drop_last().len() > 0);
        assert(spec_merge_rest(acc, rest) == spec_merge_rest(acc2, sub));
        assert(spec_merge_rest(acc, rest.drop_last()) == spec_merge_rest(acc2, sub.drop_last()));
        assert(spec_merge_rest(acc2, sub) == spec_merge_pass(
            spec_merge_rest(acc2, sub.drop_last()),
            sub.last(),
        ));
    }
}

/// No two accepted extractions with char intervals overlap.
pub open spec fn pairwise_non_overlapping(s: Seq<ExtractionView>) -> bool {
    forall|i: int, j: int|
        0 <= i < j < s.len() ==> !spec_extractions_overlap(#[trigger] s[i], #[trigger] s[j])
}

proof fn lemma_overlap_symmetric(a: ExtractionView, b: ExtractionView)
    ensures
        spec_extractions_overlap(a, b) == spec_extractions_overlap(b, a),
{
}

proof fn lemma_merge_pass_non_overlapping(acc: Seq<ExtractionView>, pass: Seq<ExtractionView>)
    requires
        pairwise_non_overlapping(acc),
    ensures
        pairwise_non_overlapping(spec_merge_pass(acc, pass)),
        acc.len() <= spec_merge_pass(acc, pass).len(),
        forall|i: int|
            0 <= i < acc.len() ==> #[trigger] spec_merge_pass(acc, pass)[i] == acc[i],
    decreases pass.len(),
{
    if pass.len() > 0 {
        let acc2 = if no_conflict(acc, pass[0]) {
            acc.push(pass[0])
        } else {
            acc
        };
        assert(pairwise_non_overlapping(acc2)) by {
            if no_conflict(acc, pass[0]) {
                assert forall|i: int, j: int|
                    0 <= i < j < acc2.len() implies !spec_extractions_overlap(
                    #[trigger] acc2[i],
                    #[trigger] acc2[j],
                ) by {
                    if j == acc2.len() - 1 {
                        assert(acc2[i] == acc[i]);
                        assert(!spec_extractions_overlap(pass[0], acc[i]));
                        lemma_overlap_symmetric(acc[i], pass[0]);
                    }
                }
            }
        }
        lemma_merge_pass_non_overlapping(acc2, pass.subrange(1, pass.len() as int));
    }
}

/// After a first-pass-wins merge whose first pass has no internal overlaps,
/// no two extractions of the result overlap.
pub proof fn lemma_merge_all_non_overlapping(passes: Seq<Seq<ExtractionView>>)
    requires
        passes.len() > 0 ==> pairwise_non_overlapping(passes[0]),
    ensures
        pairwise_non_overlapping(spec_merge_all(passes)),
{
    if passes.len() > 0 {
        lemma_merge_rest_non_overlapping(passes[0], passes.subrange(1, passes.len() as int));
    }
}

proof fn lemma_merge_rest_non_overlapping(
    acc: Seq<ExtractionView>,
    rest: Seq<Seq<ExtractionView>>,
)
    requires
        pairwise_non_overlapping(acc),
    ensures
        pairwise_non_overlapping(spec_merge_rest(acc, rest)),
    decreases rest.len(),
{
    if rest.len() > 0 {
        lemma_merge_pass_non_overlapping(acc, rest[0]);
        lemma_merge_rest_non_overlapping(
            spec_merge_pass(acc, rest[0]),
            rest.subrange(1, rest.len() as int),
        );
    }
}

/// An extraction that overlaps itself: its char interval is present with
/// both bounds set and non-empty.
pub open spec fn has_located_interval(e: ExtractionView) -> bool {
    &&& e.char_interval is Some
    &&& e.char_interval->0.start_pos is Some
    &&& e.char_interval->0.end_pos is Some
    &&& e.char_interval->0.start_pos->0 < e.char_interval->0.end_pos->0
}

proof fn lemma_merge_pass_self(acc: Seq<ExtractionView>, pass: Seq<ExtractionView>, k: int)
    requires
        0 <= k <= pass.len(),
        forall|i: int| 0 <= i < pass.len() ==> has_located_interval(#[trigger] pass[i]),
        forall|i: int| 0 <= i < pass.len() ==> acc.contains(#[trigger] pass[i]),
    ensures
        spec_merge_pass(acc, pass.subrange(k, pass.len() as int)) == acc,
    decreases pass.len() - k,
{
    if k < pass.len() {
        let tail = pass.subrange(k, pass.len() as int);
        assert(tail[0] == pass[k]);
        assert(acc.contains(pass[k]));
        let w = choose|w: int| 0 <= w < acc.len() && acc[w] == pass[k];
        assert(spec_extractions_overlap(pass[k], acc[w]));
        assert(!no_conflict(acc, pass[k]));
        assert(tail.subrange(1, tail.len() as int) =~= pass.subrange(k + 1, pass.len() as int));
        lemma_merge_pass_self(acc, pass, k + 1);
    } else {
        assert(pass.subrange(k, pass.len() as int) =~= Seq::<ExtractionView>::empty());
    }
}

/// Running identical passes over located, non-overlapping extractions and
/// merging first-pass-wins yields the first pass unchanged: later copies of
/// each extraction overlap the accepted copy and are dropped.
pub proof fn lemma_identical_passes_merge_to_first(passes: Seq<Seq<ExtractionView>>)
    requires
        passes.len() >= 1,
        forall|p: int| 0 <= p < passes.len() ==> #[trigger] passes[p] == passes[0],
        forall|i: int| 0 <= i < passes[0].len() ==> has_located_interval(#[trigger] passes[0][i]),
    ensures
        spec_merge_all(passes) == passes[0],
{
    lemma_identical_rest(passes[0], passes.subrange(1, passes.len() as int));
}

proof fn lemma_identical_rest(acc: Seq<ExtractionView>, rest: Seq<Seq<ExtractionView>>)
    requires
        forall|p: int| 0 <= p < rest.len() ==> #[trigger] rest[p] == acc,
        forall|i: int| 0 <= i < acc.len() ==> has_located_interval(#[trigger] acc[i]),
    ensures
        spec_merge_rest(acc, rest) == acc,
    decreases rest.len(),
{
    if rest.len() > 0 {
        assert(rest[0] == acc);
        assert forall|i: int| 0 <= i < acc.len() implies acc.contains(#[trigger] acc[i]) by {}
        assert(acc.subrange(0, acc.len() as int) =~= acc);
        lemma_merge_pass_self(acc, acc, 0);
        assert(spec_merge_pass(acc, rest[0]) == acc);
        lemma_identical_rest(acc, rest.subrange(1, rest.len() as int));
    }
}

/// Chunk `k` continues chunk `k - 1`: it starts where the previous chunk
/// ends.
#[verifier::opaque]
pub open spec fn chunk_chained_at(chunks: Seq<TextChunk>, k: int) -> bool {
    chunks[k].token_interval.start_index == chunks[k - 1].token_interval.end_index
}

/// The chunks are exactly the documents' chunk sequences, in document order:
/// `cuts[d] .. cuts[d + 1]` holds document `d`'s chunks, which carry its text
/// and preset id and partition its token range from the first token to the
/// last.
pub open spec fn chunks_partition(
    docs: Seq<Document>,
    chunks: Seq<TextChunk>,
    cuts: Seq<int>,
) -> bool {
    &&& cuts.len() == docs.len() + 1
    &&& cuts[0] == 0
    &&& cuts[docs.len() as int] == chunks.len()
    &&& forall|d: int| 0 <= d < docs.len() ==> #[trigger] cuts[d] <= cuts[d + 1]
    &&& forall|d: int, k: int|
        #![trigger cuts[d], chunks[k]]
        0 <= d < docs.len() && cuts[d] <= k < cuts[d + 1] ==> {
            let c = chunks[k];
            &&& c.wf()
            &&& c.document is Some
            &&& c.document->0.text@ == docs[d].text@
            &&& (docs[d].document_id is Some ==> c.document->0.document_id is Some
                && c.document->0.document_id->0@ == docs[d].document_id->0@)
            &&& c.document->0.tokenized_text is Some
            &&& (k == cuts[d] ==> c.token_interval.start_index == 0)
            &&& (k > cuts[d] ==> chunk_chained_at(chunks, k))
            &&& (k == cuts[d + 1] - 1 ==> c.token_interval.end_index
                == c.document->0.tokenized_text->0.tokens@.len())
        }
}

/// Every document carries a preset id.
pub open spec fn all_ids_preset(docs: Seq<Document>) -> bool {
    forall|k: int| 0 <= k < docs.len() ==> (#[trigger] docs[k]).document_id is Some
}

/// Two documents carry the same preset id.
pub open spec fn has_duplicate_ids(docs: Seq<Document>) -> bool {
    exists|i: int, j: int|
        #![trigger docs[i].document_id, docs[j].document_id]
        {
            &&& 0 <= i < j < docs.len()
            &&& docs[i].document_id is Some
            &&& docs[j].document_id is Some
            &&& docs[i].document_id->0@ == docs[j].document_id->0@
        }
}

/// Produces the chunk stream of a document list, in document order; with
/// `restrict_repeats`, a repeated document id is an error — and, when every
/// id is preset, only then.
#[verifier::rlimit(100)]
pub fn document_chunk_iterator(
    documents: Vec<Document>,
    max_char_buffer: usize,
    restrict_repeats: bool,
) -> (r: Result<Vec<TextChunk>, DocumentRepeatError>)
    requires
        forall|k: int|
            0 <= k < documents@.len() && (#[trigger] documents@[k]).tokenized_text is Some ==> (
            documents@[k].tokenized_text->0.text@ == documents@[k].text@
                && crate::tokenizer::tokenized_wf(
                documents@[k].text@,
                documents@[k].tokenized_text->0.tokens@,
            )),
    ensures
        r is Err ==> restrict_repeats,
        all_ids_preset(documents@) ==> (r is Err <==> (restrict_repeats && has_duplicate_ids(
            documents@,
        ))),
        r is Ok ==> exists|cuts: Seq<int>|
            #[trigger] chunks_partition(documents@, r->Ok_0@, cuts),
        r is Ok ==> forall|k: int|
            0 <= k < r->Ok_0@.len() ==> (#[trigger] r->Ok_0@[k]).wf() && r->Ok_0@[k].document
                is Some,
{
    let ghost docs0 = documents@;
    let mut docs = documents;
    let total_docs = docs.len();
    let mut visited_ids: Vec<String> = Vec::new();
    let mut chunks: Vec<TextChunk> = Vec::new();
    let ghost mut cuts: Seq<int> = seq![0];
    let mut d: usize = 0;
    while docs.len() > 0
        invariant
            docs0.len() == total_docs,
            docs0 == documents@,
            docs@ == docs0.skip(d as int),
            d <= docs0.len(),
            d as int + docs@.len() == docs0.len(),
            visited_ids@.len() == d,
            all_ids_preset(docs0) ==> forall|k: int|
                0 <= k < d ==> (#[trigger] visited_ids@[k])@ == docs0[k].document_id->0@,
            restrict_repeats && all_ids_preset(docs0) ==> forall|i: int, j: int|
                #![trigger docs0[i].document_id, docs0[j].document_id]
                0 <= i < j < d ==> docs0[i].document_id->0@ != docs0[j].document_id->0@,
            forall|k: int|
                0 <= k < docs0.len() && (#[trigger] docs0[k]).tokenized_text is Some ==> (
                docs0[k].tokenized_text->0.text@ == docs0[k].text@
                    && crate::tokenizer::tokenized_wf(
                    docs0[k].text@,
                    docs0[k].tokenized_text->0.tokens@,
                )),
            forall|k: int|
                0 <= k < chunks@.len() ==> (#[trigger] chunks@[k]).wf() && chunks@[k].document
                    is Some,
            cuts.len() == d + 1,
            cuts[0] == 0,
            cuts[d as int] == chunks@.len(),
            forall|a: int, b: int|
                #![trigger cuts[a], cuts[b]]
                0 <= a <= b <= d ==> cuts[a] <= cuts[b],
            forall|d2: int, k: int|
                #![trigger cuts[d2], chunks@[k]]
                0 <= d2 < d && cuts[d2] <= k < cuts[d2 + 1] ==> {
                    let c = chunks@[k];
                    &&& c.wf()
                    &&& c.document is Some
                    &&& c.document->0.text@ == docs0[d2].text@
                    &&& (docs0[d2].document_id is Some ==> c.document->0.document_id is Some
                        && c.document->0.document_id->0@ == docs0[d2].document_id->0@)
                    &&& c.document->0.tokenized_text is Some
                    &&& (k == cuts[d2] ==> c.token_interval.start_index == 0)
                    &&& (k > cuts[d2] ==> chunk_chained_at(chunks@, k))
                    &&& (k == cuts[d2 + 1] - 1 ==> c.token_interval.end_index
                        == c.document->0.tokenized_text->0.tokens@.len())
                },
        decreases docs@.len(),
    {
        let ghost base = chunks@.len() as int;
        let ghost old_chunks = chunks@;
        let mut document = docs.remove(0);
        proof {
            assert(document == docs0[d as int]);
            assert(docs@ =~= docs0.skip(d as int + 1));
        }
        let document_id = document.document_id();
        proof {
            if all_ids_preset(docs0) {
                assert(docs0[d as int].document_id is Some);
                assert(document_id@ == docs0[d as int].document_id->0@);
            }
        }
        if restrict_repeats {
            let mut seen = false;
            let mut v: usize = 0;
            while v < visited_ids.len()
                invariant
                    v <= visited_ids@.len(),
                    seen <==> exists|m: int|
                        0 <= m < v && (#[trigger] visited_ids@[m])@ == document_id@,
                decreases visited_ids@.len() - v,
            {
                if visited_ids[v] == document_id {
                    seen = true;
                    proof {
                        assert((visited_ids@[v as int])@ == document_id@);
                    }
                } else {
                    proof {
                        if exists|m: int|
                            0 <= m < v + 1 && (#[trigger] visited_ids@[m])@ == document_id@ {
                            let m = choose|m: int|
                                0 <= m < v + 1 && (#[trigger] visited_ids@[m])@ == document_id@;
                            assert(m < v ==> exists|m2: int|
                                0 <= m2 < v && (#[trigger] visited_ids@[m2])@ == document_id@);
                        }
                    }
                }
                v = v + 1;
            }
            if seen {
                proof {
                    if all_ids_preset(docs0) {
                        let m = choose|m: int|
                            0 <= m < visited_ids@.len() && (#[trigger] visited_ids@[m])@
                                == document_id@;
                        assert(docs0[m].document_id is Some);
                        assert(docs0[m].document_id->0@ == docs0[d as int].document_id->0@);
                        assert(has_duplicate_ids(docs0));
                    }
                }
                let mut msg = String::from_str("Document id ");
                msg.append(document_id.as_str());
                msg.append(" is already visited.");
                return Err(DocumentRepeatError(msg));
            }
            proof {
                if all_ids_preset(docs0) {
                    assert forall|i: int, j: int|
                        #![trigger docs0[i].document_id, docs0[j].document_id]
                        0 <= i < j < d + 1 implies docs0[i].document_id->0@
                        != docs0[j].document_id->0@ by {
                        if j == d as int {
                            assert((visited_ids@[i])@ == docs0[i].document_id->0@);
                        }
                    }
                }
            }
        }
        let tokenized = document.tokenized_text().clone();
        visited_ids.push(document_id);
        let mut chunk_iter = ChunkIterator::new(&tokenized, max_char_buffer, Some(document));
        let mut doc_chunks: Vec<TextChunk> = Vec::new();
        loop
            invariant
                chunk_iter.wf(),
                chunk_iter.tokenized_text == &tokenized,
                d < docs0.len(),
                chunk_iter.document.text@ == docs0[d as int].text@,
                docs0[d as int].document_id is Some ==> chunk_iter.document.document_id
                    is Some && chunk_iter.document.document_id->0@
                    == docs0[d as int].document_id->0@,
                doc_chunks@.len() == 0 ==> chunk_iter.next_pos == 0,
                doc_chunks@.len() > 0 ==> chunk_iter.next_pos == doc_chunks@[doc_chunks@.len()
                    - 1].token_interval.end_index,
                forall|k: int|
                    0 <= k < doc_chunks@.len() ==> {
                        let c = #[trigger] doc_chunks@[k];
                        &&& c.wf()
                        &&& c.document is Some
                        &&& c.document->0.text@ == docs0[d as int].text@
                        &&& (docs0[d as int].document_id is Some ==> c.document->0.document_id
                            is Some && c.document->0.document_id->0@
                            == docs0[d as int].document_id->0@)
                        &&& c.document->0.tokenized_text is Some
                        &&& c.document->0.tokenized_text->0.tokens@
                            == chunk_iter.tokenized_text.tokens@
                        &&& (k == 0 ==> c.token_interval.start_index == 0)
                    },
                forall|k: int|
                    0 < k < doc_chunks@.len() ==> #[trigger] chunk_chained_at(doc_chunks@, k),
            ensures
                chunk_iter.tokenized_text == &tokenized,
                chunk_iter.next_pos == chunk_iter.tokenized_text.tokens@.len(),
                doc_chunks@.len() == 0 ==> chunk_iter.tokenized_text.tokens@.len() == 0,
                doc_chunks@.len() > 0 ==> doc_chunks@[doc_chunks@.len()
                    - 1].token_interval.end_index == chunk_iter.tokenized_text.tokens@.len(),
                forall|k: int|
                    0 <= k < doc_chunks@.len() ==> {
                        let c = #[trigger] doc_chunks@[k];
                        &&& c.wf()
                        &&& c.document is Some
                        &&& c.document->0.text@ == docs0[d as int].text@
                        &&& (docs0[d as int].document_id is Some ==> c.document->0.document_id
                            is Some && c.document->0.document_id->0@
                            == docs0[d as int].document_id->0@)
                        &&& c.document->0.tokenized_text is Some
                        &&& c.document->0.tokenized_text->0.tokens@
                            == chunk_iter.tokenized_text.tokens@
                        &&& (k == 0 ==> c.token_interval.start_index == 0)
                    },
                forall|k: int|
                    0 < k < doc_chunks@.len() ==> #[trigger] chunk_chained_at(doc_chunks@, k),
            decreases chunk_iter.tokenized_text.tokens@.len() - chunk_iter.next_pos,
        {
            let ghost prev = doc_chunks@;
            match chunk_iter.next_chunk() {
                Some(chunk) => {
                    doc_chunks.push(chunk);
                    proof {
                        reveal(chunk_chained_at);
                        assert forall|k: int|
                            0 < k < doc_chunks@.len() implies #[trigger] chunk_chained_at(
                            doc_chunks@,
                            k,
                        ) by {
                            if k < doc_chunks@.len() - 1 {
                                assert(doc_chunks@[k] == prev[k]);
                                assert(doc_chunks@[k - 1] == prev[k - 1]);
                                assert(chunk_chained_at(prev, k));
                            } else {
                                assert(doc_chunks@[k - 1] == prev[k - 1]);
                            }
                        }
                    }
                },
                None => {
                    break;
                },
            }
        }
        let ghost segment = doc_chunks@;
        chunks.append(&mut doc_chunks);
        proof {
            assert(chunks@ == old_chunks + segment);
            cuts = cuts.push(chunks@.len() as int);
            assert forall|k: int|
                0 <= k < chunks@.len() implies (#[trigger] chunks@[k]).wf()
                && chunks@[k].document is Some by {
                if k < old_chunks.len() {
                    assert(chunks@[k] == old_chunks[k]);
                } else {
                    assert(chunks@[k] == segment[k - old_chunks.len()]);
                }
            }
        }
        d = d + 1;
        proof {
            reveal(chunk_chained_at);
            assert forall|d2: int, k: int|
                #![trigger cuts[d2], chunks@[k]]
                0 <= d2 < d && cuts[d2] <= k < cuts[d2 + 1] implies {
                let c = chunks@[k];
                &&& c.wf()
                &&& c.document is Some
                &&& c.document->0.text@ == docs0[d2].text@
                &&& (docs0[d2].document_id is Some ==> c.document->0.document_id is Some
                    && c.document->0.document_id->0@ == docs0[d2].document_id->0@)
                &&& c.document->0.tokenized_text is Some
                &&& (k == cuts[d2] ==> c.token_interval.start_index == 0)
                &&& (k > cuts[d2] ==> chunk_chained_at(chunks@, k))
                &&& (k == cuts[d2 + 1] - 1 ==> c.token_interval.end_index
                    == c.document->0.tokenized_text->0.tokens@.len())
            } by {
                if d2 < d - 1 {
                    assert(chunks@[k] == old_chunks[k]);
                    if k > cuts[d2] {
                        assert(chunks@[k - 1] == old_chunks[k - 1]);
                        assert(chunk_chained_at(old_chunks, k));
                    }
                } else {
                    assert(chunks@[k] == segment[k - base]);
                    if k > base {
                        assert(chunks@[k - 1] == segment[k - base - 1]);
                        assert(chunk_chained_at(segment, k - base));
                    }
                }
            }
        }
    }
    proof {
        assert(docs0.skip(d as int).len() == 0);
        if restrict_repeats && all_ids_preset(docs0) && has_duplicate_ids(docs0) {
            let (i, j) = choose|i: int, j: int|
                #![trigger docs0[i].document_id, docs0[j].document_id]
                {
                    &&& 0 <= i < j < docs0.len()
                    &&& docs0[i].document_id is Some
                    &&& docs0[j].document_id is Some
                    &&& docs0[i].document_id->0@ == docs0[j].document_id->0@
                };
            assert(false);
        }
        assert(chunks_partition(documents@, chunks@, cuts)) by {
            assert(cuts[docs0.len() as int] == chunks@.len());
            assert forall|a: int| 0 <= a < documents@.len() implies #[trigger] cuts[a] <= cuts[a
                + 1] by {}
        }
    }
    Ok(chunks)
}

/// Options controlling resolution and alignment during assembly.
#[derive(Debug, Clone, Copy)]
pub struct AlignOptions {
    pub enable_fuzzy_alignment: bool,
    pub fuzzy_alignment_threshold_permille: u32,
    pub accept_match_lesser: bool,
    pub suppress_parse_errors: bool,
}

/// The shared-model form of one aligned resolver extraction: intervals and
/// status carried over, attributes and description left empty, as the
/// assembly records them.
pub open spec fn converted_extraction(e: resolver::RExtractionView) -> ExtractionView {
    ExtractionView {
        extraction_class: e.extraction_class,
        extraction_text: e.extraction_text,
        char_interval: match e.char_interval {
            Some(ci) => Some(
                CharInterval { start_pos: Some(ci.start_pos), end_pos: Some(ci.end_pos) },
            ),
            None => None,
        },
        alignment_status: match e.alignment_status {
            Some(resolver::AlignmentStatus::MatchExact) => Some(AlignmentStatus::MatchExact),
            Some(resolver::AlignmentStatus::MatchLesser) => Some(AlignmentStatus::MatchLesser),
            Some(resolver::AlignmentStatus::MatchFuzzy) => Some(AlignmentStatus::MatchFuzzy),
            None => None,
        },
        extraction_index: Some(e.extraction_index),
        group_index: Some(e.group_index),
        description: None,
        attributes: None,
        token_interval: match e.token_interval {
            Some(ti) => Some(
                TokenInterval { start_index: ti.start_index, end_index: ti.end_index },
            ),
            None => None,
        },
    }
}

/// What one chunk contributes to its document: the top reply resolves under
/// the resolver configuration (or, suppressed, to nothing), every resolved
/// extraction is aligned against the chunk's text with the chunk's token
/// offset, and the outcome is the converted aligned list.
pub open spec fn chunk_outcome_ok(
    cfg: Resolver,
    options: AlignOptions,
    chunk: TextChunk,
    output: Seq<char>,
    outcome: Seq<ExtractionView>,
) -> bool {
    exists|resolved: Seq<resolver::RExtractionView>, aligned: Seq<resolver::RExtractionView>|
        #![trigger resolved.len(), aligned.len()]
        {
            &&& (if cfg.resolvable(output) {
                cfg.resolution_ok(output, resolved)
            } else {
                options.suppress_parse_errors && resolved.len() == 0
            })
            &&& aligned.len() == resolved.len()
            &&& (forall|k: int|
                0 <= k < resolved.len() ==> resolver::aligned_result_ok(
                    chunk.spec_text(),
                    #[trigger] resolved[k],
                    aligned[k],
                    chunk.token_interval.start_index as int,
                    options.enable_fuzzy_alignment,
                    options.fuzzy_alignment_threshold_permille,
                ))
            &&& outcome.len() == aligned.len()
            &&& (forall|k: int|
                0 <= k < aligned.len() ==> #[trigger] outcome[k] == converted_extraction(
                    aligned[k],
                ))
        }
}

/// A document's extractions are the concatenation, over its chunks in order,
/// of each chunk's outcome from its top reply.
pub open spec fn document_annotated_ok(
    cfg: Resolver,
    options: AlignOptions,
    chunks: Seq<TextChunk>,
    outputs: Seq<Seq<char>>,
    extractions: Seq<ExtractionView>,
) -> bool {
    exists|pieces: Seq<Seq<ExtractionView>>|
        #![trigger pieces.len()]
        {
            &&& pieces.len() == chunks.len()
            &&& (forall|k: int|
                0 <= k < chunks.len() ==> chunk_outcome_ok(
                    cfg,
                    options,
                    chunks[k],
                    outputs[k],
                    #[trigger] pieces[k],
                ))
            &&& extractions == pieces.flatten()
        }
}

/// The views of the reply strings.
pub open spec fn output_views(s: Seq<String>) -> Seq<Seq<char>> {
    s.map_values(|o: String| o@)
}

fn to_data_extraction(e: &resolver::Extraction) -> (r: Extraction)
    ensures
        r@ == converted_extraction(e@),
{
    let token_interval = match &e.token_interval {
        Some(ti) => Some(
            TokenInterval { start_index: ti.start_index, end_index: ti.end_index },
        ),
        None => None,
    };
    let char_interval = match &e.char_interval {
        Some(ci) => Some(CharInterval::new(Some(ci.start_pos), Some(ci.end_pos))),
        None => None,
    };
    let alignment_status = match &e.alignment_status {
        Some(resolver::AlignmentStatus::MatchExact) => Some(AlignmentStatus::MatchExact),
        Some(resolver::AlignmentStatus::MatchLesser) => Some(AlignmentStatus::MatchLesser),
        Some(resolver::AlignmentStatus::MatchFuzzy) => Some(AlignmentStatus::MatchFuzzy),
        None => None,
    };
    Extraction::new(
        e.extraction_class.clone(),
        e.extraction_text.clone(),
        token_interval,
        char_interval,
        alignment_status,
        Some(e.extraction_index),
        Some(e.group_index),
        None,
        None,
    )
}

/// Assembles annotated documents from the chunk stream and the top model
/// reply for each chunk: replies are resolved, aligned against their chunk
/// and accumulated per document, in document order.
#[verifier::rlimit(100)]
pub fn assemble_annotations(
    documents: Vec<Document>,
    chunks: Vec<TextChunk>,
    top_outputs: Vec<String>,
    resolver_config: &Resolver,
    options: AlignOptions,
) -> (r: Result<Vec<AnnotatedDocument>, InferenceOutputError>)
    requires
        chunks@.len() == top_outputs@.len(),
        forall|k: int|
            0 <= k < chunks@.len() ==> (#[trigger] chunks@[k]).wf() && chunks@[k].document
                is Some && chunks@[k].document->0.document_id is Some,
    ensures
        r is Ok ==> r->Ok_0@.len() == documents@.len(),
        r is Ok ==> forall|i: int|
            0 <= i < r->Ok_0@.len() ==> {
                let out = #[trigger] r->Ok_0@[i];
                &&& out.document_id is Some
                &&& out.text is Some
                &&& out.extractions is Some
                &&& out.text->0@ == documents@[i].text@
                &&& (documents@[i].document_id is Some ==> out.document_id->0@
                    == documents@[i].document_id->0@)
            },
        chunks@.len() == 0 ==> r is Ok,
        r is Ok ==> exists|cuts: Seq<int>|
            #![trigger cuts.len()]
            {
                &&& cuts.len() == documents@.len() + 1
                &&& cuts[0] == 0
                &&& cuts[documents@.len() as int] == chunks@.len()
                &&& (forall|a: int, b: int|
                    #![trigger cuts[a], cuts[b]]
                    0 <= a <= b <= documents@.len() ==> cuts[a] <= cuts[b])
                &&& (forall|d: int, k: int|
                    #![trigger cuts[d], chunks@[k]]
                    0 <= d < documents@.len() && cuts[d] <= k < cuts[d + 1]
                        ==> chunks@[k].document->0.document_id->0@
                        == r->Ok_0@[d].document_id->0@)
                &&& (forall|d: int|
                    0 <= d < documents@.len() ==> document_annotated_ok(
                        *resolver_config,
                        options,
                        chunks@.subrange(cuts[d], cuts[d + 1]),
                        output_views(top_outputs@).subrange(cuts[d], cuts[d + 1]),
                        extraction_views((#[trigger] r->Ok_0@[d]).extractions->0@),
                    ))
            },
{
    let ghost docs0 = documents@;
    let ghost chunks0 = chunks@;
    let ghost outv = output_views(top_outputs@);
    let mut docs = documents;
    let ghost total_docs = docs@.len();
    let mut annotated_documents: Vec<AnnotatedDocument> = Vec::new();
    if docs.len() == 0 {
        if chunks.len() > 0 {
            return Err(
                InferenceOutputError::new(
                    String::from_str("Chunk does not belong to any remaining document."),
                ),
            );
        }
        proof {
            let cuts: Seq<int> = seq![0];
            assert(cuts.len() == docs0.len() + 1);
        }
        return Ok(annotated_documents);
    }
    let mut curr_document = docs.remove(0);
    let mut curr_id = curr_document.document_id();
    let mut annotated_extractions: Vec<Extraction> = Vec::new();
    let mut rest_chunks = chunks;
    let mut rest_outputs = top_outputs;
    let ghost mut cuts: Seq<int> = seq![0];
    let ghost mut pieces_cur: Seq<Seq<ExtractionView>> = Seq::empty();
    proof {
        assert(docs@ =~= docs0.skip(1));
        assert(rest_chunks@ =~= chunks0.skip(0));
        assert(output_views(rest_outputs@) =~= outv.skip(0));
        assert(extraction_views(annotated_extractions@) =~= pieces_cur.flatten());
    }
    while rest_chunks.len() > 0
        invariant
            docs0.len() == total_docs,
            chunks0 == chunks@,
            outv == output_views(top_outputs@),
            chunks0.len() == outv.len(),
            forall|k: int|
                0 <= k < chunks0.len() ==> (#[trigger] chunks0[k]).wf() && chunks0[k].document
                    is Some && chunks0[k].document->0.document_id is Some,
            rest_chunks@.len() == rest_outputs@.len(),
            rest_chunks@.len() <= chunks0.len(),
            rest_chunks@ == chunks0.skip(chunks0.len() - rest_chunks@.len()),
            output_views(rest_outputs@) == outv.skip(chunks0.len() - rest_chunks@.len()),
            annotated_documents@.len() + docs@.len() + 1 == total_docs,
            docs@ == docs0.skip(annotated_documents@.len() as int + 1),
            curr_document.text@ == docs0[annotated_documents@.len() as int].text@,
            curr_document.document_id is Some,
            curr_id@ == curr_document.document_id->0@,
            docs0[annotated_documents@.len() as int].document_id is Some ==> curr_id@
                == docs0[annotated_documents@.len() as int].document_id->0@,
            cuts.len() == annotated_documents@.len() + 1,
            cuts[0] == 0,
            forall|a: int, b: int|
                #![trigger cuts[a], cuts[b]]
                0 <= a <= b <= annotated_documents@.len() as int ==> cuts[a] <= cuts[b],
            cuts[annotated_documents@.len() as int] + pieces_cur.len() == chunks0.len()
                - rest_chunks@.len(),
            0 <= cuts[annotated_documents@.len() as int],
            extraction_views(annotated_extractions@) == pieces_cur.flatten(),
            forall|j: int|
                0 <= j < pieces_cur.len() ==> chunk_outcome_ok(
                    *resolver_config,
                    options,
                    chunks0[cuts[annotated_documents@.len() as int] + j],
                    outv[cuts[annotated_documents@.len() as int] + j],
                    #[trigger] pieces_cur[j],
                ),
            forall|j: int|
                0 <= j < pieces_cur.len() ==> (#[trigger] chunks0[cuts[
                    annotated_documents@.len() as int
                ] + j]).document->0.document_id->0@ == curr_id@,
            forall|d: int, k: int|
                #![trigger cuts[d], chunks0[k]]
                0 <= d < annotated_documents@.len() && cuts[d] <= k < cuts[d + 1]
                    ==> chunks0[k].document->0.document_id->0@
                    == annotated_documents@[d].document_id->0@,
            forall|d: int|
                0 <= d < annotated_documents@.len() ==> document_annotated_ok(
                    *resolver_config,
                    options,
                    chunks0.subrange(cuts[d], cuts[d + 1]),
                    outv.subrange(cuts[d], cuts[d + 1]),
                    extraction_views(
                        (#[trigger] annotated_documents@[d]).extractions->0@,
                    ),
                ),
            forall|i: int|
                0 <= i < annotated_documents@.len() ==> {
                    let out = #[trigger] annotated_documents@[i];
                    &&& out.document_id is Some
                    &&& out.text is Some
                    &&& out.extractions is Some
                    &&& out.text->0@ == docs0[i].text@
                    &&& (docs0[i].document_id is Some ==> out.document_id->0@
                        == docs0[i].document_id->0@)
                },
        decreases rest_chunks@.len(),
    {
        let ghost consumed_before = chunks0.len() - rest_chunks@.len();
        let ghost rc0 = rest_chunks@;
        let ghost ro0 = rest_outputs@;
        let mut text_chunk = rest_chunks.remove(0);
        let top_output = rest_outputs.remove(0);
        let ghost idx = consumed_before;
        proof {
            assert(rc0 == chunks0.skip(idx));
            assert(rc0[0] == chunks0[idx]);
            assert(text_chunk == chunks0[idx]);
            assert(output_views(ro0) == outv.skip(idx));
            assert(output_views(ro0)[0] == ro0[0]@);
            assert(top_output@ == outv[idx]);
            assert(rest_chunks@ =~= chunks0.skip(idx + 1));
            assert(rest_outputs@ =~= ro0.skip(1));
            assert forall|m: int|
                0 <= m < rest_outputs@.len() implies output_views(rest_outputs@)[m] == outv.skip(
                idx + 1,
            )[m] by {
                assert(rest_outputs@[m] == ro0[m + 1]);
                assert(output_views(ro0)[m + 1] == ro0[m + 1]@);
                assert(output_views(rest_outputs@)[m] == rest_outputs@[m]@);
            }
            assert(output_views(rest_outputs@) =~= outv.skip(idx + 1));
        }
        if top_output.as_str().is_empty() {
            return Err(
                InferenceOutputError::new(
                    String::from_str("No scored outputs from language model."),
                ),
            );
        }
        let chunk_id = match text_chunk.document_id() {
            Some(id) => id,
            None => {
                return Err(
                    InferenceOutputError::new(
                        String::from_str("Chunk is missing its source document."),
                    ),
                );
            },
        };
        proof {
            assert(chunk_id@ == chunks0[idx].document->0.document_id->0@);
        }
        while curr_id != chunk_id
            invariant
                docs0.len() == total_docs,
                chunks0 == chunks@,
                outv == output_views(top_outputs@),
                chunks0.len() == outv.len(),
                forall|k: int|
                    0 <= k < chunks0.len() ==> (#[trigger] chunks0[k]).wf()
                        && chunks0[k].document is Some && chunks0[k].document->0.document_id
                        is Some,
                idx + 1 <= chunks0.len(),
                annotated_documents@.len() + docs@.len() + 1 == total_docs,
                docs@ == docs0.skip(annotated_documents@.len() as int + 1),
                curr_document.text@ == docs0[annotated_documents@.len() as int].text@,
                curr_document.document_id is Some,
                curr_id@ == curr_document.document_id->0@,
                docs0[annotated_documents@.len() as int].document_id is Some ==> curr_id@
                    == docs0[annotated_documents@.len() as int].document_id->0@,
                cuts.len() == annotated_documents@.len() + 1,
                cuts[0] == 0,
                forall|a: int, b: int|
                    #![trigger cuts[a], cuts[b]]
                    0 <= a <= b <= annotated_documents@.len() as int ==> cuts[a] <= cuts[b],
                cuts[annotated_documents@.len() as int] + pieces_cur.len() == idx,
                0 <= cuts[annotated_documents@.len() as int],
                extraction_views(annotated_extractions@) == pieces_cur.flatten(),
                forall|j: int|
                    0 <= j < pieces_cur.len() ==> chunk_outcome_ok(
                        *resolver_config,
                        options,
                        chunks0[cuts[annotated_documents@.len() as int] + j],
                        outv[cuts[annotated_documents@.len() as int] + j],
                        #[trigger] pieces_cur[j],
                    ),
                forall|j: int|
                    0 <= j < pieces_cur.len() ==> (#[trigger] chunks0[cuts[
                        annotated_documents@.len() as int
                    ] + j]).document->0.document_id->0@ == curr_id@,
                forall|d: int, k: int|
                    #![trigger cuts[d], chunks0[k]]
                    0 <= d < annotated_documents@.len() && cuts[d] <= k < cuts[d + 1]
                        ==> chunks0[k].document->0.document_id->0@
                        == annotated_documents@[d].document_id->0@,
                forall|d: int|
                    0 <= d < annotated_documents@.len() ==> document_annotated_ok(
                        *resolver_config,
                        options,
                        chunks0.subrange(cuts[d], cuts[d + 1]),
                        outv.subrange(cuts[d], cuts[d + 1]),
                        extraction_views(
                            (#[trigger] annotated_documents@[d]).extractions->0@,
                        ),
                    ),
                forall|i: int|
                    0 <= i < annotated_documents@.len() ==> {
                        let out = #[trigger] annotated_documents@[i];
                        &&& out.document_id is Some
                        &&& out.text is Some
                        &&& out.extractions is Some
                        &&& out.text->0@ == docs0[i].text@
                        &&& (docs0[i].document_id is Some ==> out.document_id->0@
                            == docs0[i].document_id->0@)
                    },
            decreases docs@.len(),
        {
            let ghost fin = annotated_documents@.len() as int;
            let ghost fin_exts = extraction_views(annotated_extractions@);
            let ghost fin_pieces = pieces_cur;
            let ghost fin_id = curr_id@;
            annotated_documents.push(
                AnnotatedDocument::new(
                    Some(curr_id),
                    Some(annotated_extractions),
                    Some(curr_document.text),
                ),
            );
            proof {
                cuts = cuts.push(idx as int);
                pieces_cur = Seq::empty();
                assert(extraction_views(annotated_documents@[fin].extractions->0@)
                    == fin_exts);
                assert(document_annotated_ok(
                    *resolver_config,
                    options,
                    chunks0.subrange(cuts[fin], cuts[fin + 1]),
                    outv.subrange(cuts[fin], cuts[fin + 1]),
                    extraction_views(annotated_documents@[fin].extractions->0@),
                )) by {
                    let cs = chunks0.subrange(cuts[fin], cuts[fin + 1]);
                    let os = outv.subrange(cuts[fin], cuts[fin + 1]);
                    assert(cs.len() == fin_pieces.len());
                    assert forall|k: int|
                        0 <= k < cs.len() implies chunk_outcome_ok(
                        *resolver_config,
                        options,
                        cs[k],
                        os[k],
                        #[trigger] fin_pieces[k],
                    ) by {
                        assert(cs[k] == chunks0[cuts[fin] + k]);
                        assert(os[k] == outv[cuts[fin] + k]);
                    }
                    assert(extraction_views(annotated_documents@[fin].extractions->0@)
                        == fin_pieces.flatten());
                }
                assert forall|k: int|
                    cuts[fin] <= k < cuts[fin + 1] implies (
                #[trigger] chunks0[k]).document->0.document_id->0@ == annotated_documents@[
                    fin
                ].document_id->0@ by {
                    assert(chunks0[cuts[fin] + (k - cuts[fin])].document->0.document_id->0@
                        == fin_id);
                }
            }
            if docs.len() == 0 {
                return Err(
                    InferenceOutputError::new(
                        String::from_str("Chunk does not belong to any remaining document."),
                    ),
                );
            }
            let ghost adv = annotated_documents@.len() as int;
            curr_document = docs.remove(0);
            proof {
                assert(curr_document == docs0[adv]);
                assert(docs@ =~= docs0.skip(adv + 1));
            }
            curr_id = curr_document.document_id();
            annotated_extractions = Vec::new();
            proof {
                assert(extraction_views(annotated_extractions@) =~= pieces_cur.flatten());
            }
        }
        let chunk_extractions = match resolver_config.resolve(
            top_output.as_str(),
            options.suppress_parse_errors,
        ) {
            Ok(exts) => exts,
            Err(_) => {
                return Err(
                    InferenceOutputError::new(
                        String::from_str("Failed to resolve extractions from model output."),
                    ),
                );
            },
        };
        let ghost resolved_vs = resolver::resolved_views(chunk_extractions@);
        let chunk_text = match text_chunk.chunk_text() {
            Ok(txt) => txt,
            Err(_) => {
                return Err(
                    InferenceOutputError::new(
                        String::from_str("Chunk is missing its source document."),
                    ),
                );
            },
        };
        let char_offset = match text_chunk.char_interval() {
            Ok(ci) => match ci.start_pos {
                Some(s) => s,
                None => 0,
            },
            Err(_) => 0,
        };
        let token_offset = text_chunk.token_interval.start_index;
        let chunk_chars = chunk_text.as_str().unicode_len();
        if char_offset > usize::MAX - chunk_chars || token_offset > usize::MAX - chunk_chars {
            return Err(
                InferenceOutputError::new(String::from_str("Chunk offsets exceed limits.")),
            );
        }
        let aligned = resolver_config.align(
            &chunk_extractions,
            chunk_text.as_str(),
            token_offset,
            Some(char_offset),
            options.enable_fuzzy_alignment,
            options.fuzzy_alignment_threshold_permille,
            options.accept_match_lesser,
        );
        let ghost new_piece = Seq::new(
            aligned@.len() as nat,
            |k: int| converted_extraction(aligned@[k]@),
        );
        let ghost exts_before = extraction_views(annotated_extractions@);
        let mut ai: usize = 0;
        while ai < aligned.len()
            invariant
                ai <= aligned@.len(),
                new_piece == Seq::new(
                    aligned@.len() as nat,
                    |k: int| converted_extraction(aligned@[k]@),
                ),
                exts_before.len() + ai == extraction_views(annotated_extractions@).len(),
                extraction_views(annotated_extractions@) == exts_before + new_piece.take(
                    ai as int,
                ),
            decreases aligned@.len() - ai,
        {
            let ghost prev_exts = annotated_extractions@;
            annotated_extractions.push(to_data_extraction(&aligned[ai]));
            proof {
                assert(extraction_views(annotated_extractions@) =~= extraction_views(
                    prev_exts,
                ).push(converted_extraction(aligned@[ai as int]@)));
                assert(exts_before + new_piece.take(ai as int + 1) =~= (exts_before
                    + new_piece.take(ai as int)).push(new_piece[ai as int]));
            }
            ai = ai + 1;
        }
        proof {
            let here = cuts[annotated_documents@.len() as int] + pieces_cur.len();
            assert(here == idx);
            // this chunk's outcome: the resolved reply aligned against the
            // chunk text
            assert(chunk_outcome_ok(
                *resolver_config,
                options,
                chunks0[idx],
                outv[idx],
                new_piece,
            )) by {
                let aligned_vs = resolver::resolved_views(aligned@);
                assert(aligned_vs.len() == resolved_vs.len());
                assert forall|k: int|
                    0 <= k < resolved_vs.len() implies resolver::aligned_result_ok(
                    chunks0[idx].spec_text(),
                    #[trigger] resolved_vs[k],
                    aligned_vs[k],
                    chunks0[idx].token_interval.start_index as int,
                    options.enable_fuzzy_alignment,
                    options.fuzzy_alignment_threshold_permille,
                ) by {
                    assert(resolved_vs[k] == chunk_extractions@[k]@);
                    assert(aligned_vs[k] == aligned@[k]@);
                    assert(chunk_text@ == chunks0[idx].spec_text());
                }
                assert(new_piece.len() == aligned_vs.len());
                assert forall|k: int|
                    0 <= k < aligned_vs.len() implies #[trigger] new_piece[k]
                    == converted_extraction(aligned_vs[k]) by {
                    assert(aligned_vs[k] == aligned@[k]@);
                }
                if resolver_config.resolvable(outv[idx]) {
                    assert(resolver_config.resolution_ok(outv[idx], resolved_vs));
                } else {
                    assert(options.suppress_parse_errors && resolved_vs.len() == 0);
                }
            }
            crate::chunking::lemma_flatten_push(pieces_cur, new_piece);
            assert(new_piece.take(aligned@.len() as int) =~= new_piece);
            pieces_cur = pieces_cur.push(new_piece);
            assert(extraction_views(annotated_extractions@) =~= pieces_cur.flatten());
        }
    }
    let ghost fin = annotated_documents@.len() as int;
    let ghost fin_exts = extraction_views(annotated_extractions@);
    let ghost fin_pieces = pieces_cur;
    let ghost fin_id = curr_id@;
    annotated_documents.push(
        AnnotatedDocument::new(
            Some(curr_id),
            Some(annotated_extractions),
            Some(curr_document.text),
        ),
    );
    proof {
        cuts = cuts.push(chunks0.len() as int);
        assert(document_annotated_ok(
            *resolver_config,
            options,
            chunks0.subrange(cuts[fin], cuts[fin + 1]),
            outv.subrange(cuts[fin], cuts[fin + 1]),
            extraction_views(annotated_documents@[fin].extractions->0@),
        )) by {
            let cs = chunks0.subrange(cuts[fin], cuts[fin + 1]);
            let os = outv.subrange(cuts[fin], cuts[fin + 1]);
            assert(cs.len() == fin_pieces.len());
            assert forall|k: int|
                0 <= k < cs.len() implies chunk_outcome_ok(
                *resolver_config,
                options,
                cs[k],
                os[k],
                #[trigger] fin_pieces[k],
            ) by {
                assert(cs[k] == chunks0[cuts[fin] + k]);
                assert(os[k] == outv[cuts[fin] + k]);
            }
            assert(extraction_views(annotated_documents@[fin].extractions->0@)
                == fin_pieces.flatten());
        }
        assert forall|k: int|
            cuts[fin] <= k < cuts[fin + 1] implies (#[trigger] chunks0[k]).document->0.document_id->0@
            == annotated_documents@[fin].document_id->0@ by {
            assert(chunks0[cuts[fin] + (k - cuts[fin])].document->0.document_id->0@ == fin_id);
        }
    }
    while docs.len() > 0
        invariant
            docs0.len() == total_docs,
            chunks0 == chunks@,
            outv == output_views(top_outputs@),
            chunks0.len() == outv.len(),
            annotated_documents@.len() + docs@.len() == total_docs,
            docs@ == docs0.skip(annotated_documents@.len() as int),
            cuts.len() == annotated_documents@.len() + 1,
            cuts[0] == 0,
            cuts[annotated_documents@.len() as int] == chunks0.len(),
            forall|a: int, b: int|
                #![trigger cuts[a], cuts[b]]
                0 <= a <= b <= annotated_documents@.len() as int ==> cuts[a] <= cuts[b],
            forall|d: int, k: int|
                #![trigger cuts[d], chunks0[k]]
                0 <= d < annotated_documents@.len() && cuts[d] <= k < cuts[d + 1]
                    ==> chunks0[k].document->0.document_id->0@
                    == annotated_documents@[d].document_id->0@,
            forall|d: int|
                0 <= d < annotated_documents@.len() ==> document_annotated_ok(
                    *resolver_config,
                    options,
                    chunks0.subrange(cuts[d], cuts[d + 1]),
                    outv.subrange(cuts[d], cuts[d + 1]),
                    extraction_views(
                        (#[trigger] annotated_documents@[d]).extractions->0@,
                    ),
                ),
            forall|i: int|
                0 <= i < annotated_documents@.len() ==> {
                    let out = #[trigger] annotated_documents@[i];
                    &&& out.document_id is Some
                    &&& out.text is Some
                    &&& out.extractions is Some
                    &&& out.text->0@ == docs0[i].text@
                    &&& (docs0[i].document_id is Some ==> out.document_id->0@
                        == docs0[i].document_id->0@)
                },
        decreases docs@.len(),
    {
        let ghost adv = annotated_documents@.len() as int;
        let mut dd = docs.remove(0);
        proof {
            assert(dd == docs0[adv]);
            assert(docs@ =~= docs0.skip(adv + 1));
        }
        let id = dd.document_id();
        let empty_extractions: Vec<Extraction> = Vec::new();
        proof {
            assert(extraction_views(empty_extractions@) =~= Seq::<ExtractionView>::empty());
        }
        annotated_documents.push(
            AnnotatedDocument::new(Some(id), Some(empty_extractions), Some(dd.text)),
        );
        proof {
            cuts = cuts.push(chunks0.len() as int);
            assert(document_annotated_ok(
                *resolver_config,
                options,
                chunks0.subrange(cuts[adv], cuts[adv + 1]),
                outv.subrange(cuts[adv], cuts[adv + 1]),
                extraction_views(annotated_documents@[adv].extractions->0@),
            )) by {
                let pieces0: Seq<Seq<ExtractionView>> = Seq::empty();
                assert(chunks0.subrange(cuts[adv], cuts[adv + 1]).len() == 0);
                assert(pieces0.flatten() =~= Seq::<ExtractionView>::empty());
                assert(extraction_views(annotated_documents@[adv].extractions->0@)
                    =~= pieces0.flatten());
            }
        }
    }
    proof {
        assert(cuts.len() == docs0.len() + 1);
        assert(cuts[docs0.len() as int] == chunks0.len());
    }
    Ok(annotated_documents)
}

/// Merges the per-pass results of one document set first-pass-wins: document
/// `i` of the result carries the id and text of pass one and exactly the
/// first-pass-wins merge of its extractions over all passes.
pub fn merge_annotated_passes(passes: &Vec<Vec<AnnotatedDocument>>) -> (r: Vec<AnnotatedDocument>)
    requires
        passes@.len() >= 1,
        forall|p: int|
            1 <= p < passes@.len() ==> (#[trigger] passes@[p])@.len() == passes@[0]@.len(),
    ensures
        r@.len() == passes@[0]@.len(),
        forall|i: int|
            0 <= i < r@.len() ==> {
                let out = #[trigger] r@[i];
                &&& out.extractions is Some
                &&& extraction_views(out.extractions->0@) == spec_merge_all(
                    doc_pass_views(passes@, i),
                )
                &&& out.document_id == passes@[0]@[i].document_id
                &&& out.text == passes@[0]@[i].text
            },
{
    let n = passes[0].len();
    let mut out: Vec<AnnotatedDocument> = Vec::new();
    let mut i: usize = 0;
    while i < n
        invariant
            passes@.len() >= 1,
            forall|p: int|
                1 <= p < passes@.len() ==> (#[trigger] passes@[p])@.len() == passes@[0]@.len(),
            n == passes@[0]@.len(),
            i <= n,
            out@.len() == i,
            forall|ii: int|
                0 <= ii < i ==> {
                    let outd = #[trigger] out@[ii];
                    &&& outd.extractions is Some
                    &&& extraction_views(outd.extractions->0@) == spec_merge_all(
                        doc_pass_views(passes@, ii),
                    )
                    &&& outd.document_id == passes@[0]@[ii].document_id
                    &&& outd.text == passes@[0]@[ii].text
                },
        decreases n - i,
    {
        let mut doc_passes: Vec<Vec<Extraction>> = Vec::new();
        let mut p: usize = 0;
        while p < passes.len()
            invariant
                passes@.len() >= 1,
                forall|pp: int|
                    1 <= pp < passes@.len() ==> (#[trigger] passes@[pp])@.len()
                        == passes@[0]@.len(),
                n == passes@[0]@.len(),
                i < n,
                p <= passes@.len(),
                pass_views(doc_passes@) == doc_pass_views(passes@, i as int).take(p as int),
            decreases passes@.len() - p,
        {
            let pass_doc = &passes[p][i];
            let exts: Vec<Extraction> = match &pass_doc.extractions {
                Some(v) => {
                    let mut copy: Vec<Extraction> = Vec::new();
                    let mut k: usize = 0;
                    while k < v.len()
                        invariant
                            k <= v@.len(),
                            copy@.len() == k,
                            forall|m: int| 0 <= m < k ==> (#[trigger] copy@[m])@ == v@[m]@,
                        decreases v@.len() - k,
                    {
                        copy.push(v[k].clone());
                        k = k + 1;
                    }
                    copy
                },
                None => Vec::new(),
            };
            proof {
                let dpv = doc_pass_views(passes@, i as int);
                if passes@[p as int]@[i as int].extractions is Some {
                    let v = passes@[p as int]@[i as int].extractions->0;
                    assert forall|m: int|
                        0 <= m < exts@.len() implies extraction_views(exts@)[m]
                        == extraction_views(v@)[m] by {
                        assert(exts@[m]@ == v@[m]@);
                    }
                    assert(extraction_views(exts@) =~= extraction_views(v@));
                } else {
                    assert(extraction_views(exts@) =~= Seq::<ExtractionView>::empty());
                }
                assert(extraction_views(exts@) == dpv[p as int]);
            }
            let ghost old_doc_passes = doc_passes@;
            doc_passes.push(exts);
            proof {
                let dpv = doc_pass_views(passes@, i as int);
                assert(pass_views(old_doc_passes).len() == old_doc_passes.len());
                assert(dpv.take(p as int).len() == p as int);
                assert(old_doc_passes.len() == p as int);
                assert(doc_passes@.len() == p + 1);
                assert(dpv.len() == passes@.len());
                assert forall|m: int| 0 <= m < p + 1 implies pass_views(doc_passes@)[m] == dpv.take(
                    p + 1,
                )[m] by {
                    if m < p {
                        assert(doc_passes@[m] == old_doc_passes[m]);
                        assert(pass_views(old_doc_passes)[m] == dpv.take(p as int)[m]);
                    } else {
                        assert(extraction_views(doc_passes@[m]@) == dpv[m]);
                    }
                }
                assert(pass_views(doc_passes@) =~= dpv.take(p + 1));
            }
            p = p + 1;
        }
        proof {
            assert(doc_pass_views(passes@, i as int).take(passes@.len() as int) =~= doc_pass_views(
                passes@,
                i as int,
            ));
        }
        let merged = merge_non_overlapping_extractions(&doc_passes);
        let first_doc = &passes[0][i];
        let id = match &first_doc.document_id {
            Some(d) => Some(d.clone()),
            None => None,
        };
        let text = match &first_doc.text {
            Some(t) => Some(t.clone()),
            None => None,
        };
        out.push(AnnotatedDocument::new(id, Some(merged), text));
        i = i + 1;
    }
    out
}

/// The extraction views of document `i` in each pass; a document without
/// extractions contributes an empty pass.
pub open spec fn doc_pass_views(passes: Seq<Vec<AnnotatedDocument>>, i: int) -> Seq<
    Seq<ExtractionView>,
> {
    Seq::new(
        passes.len(),
        |p: int|
            match passes[p]@[i].extractions {
                Some(v) => extraction_views(v@),
                None => Seq::empty(),
            },
    )
}

} // verus!

