use vstd::prelude::*;
use crate::cue::CueView;
use crate::order::{lemma_sort_content, lemma_sort_stable, lemma_with_start_add, sort_by_start, with_start};
use crate::text::{lemma_lines_lack_newline, lines, split_on};
use crate::timestamp::{lemma_timestamp_text_parse, timestamp_parse, timestamp_text};
use crate::track::{
    block_lines, blocks_text, header, lemma_block_lines_no_cr, lemma_block_lines_parse,
    lemma_blocks_split, lemma_body_parse_cues, rereadable, tag_all, track_parse, track_text,
};

verus! {

/// Folding three tracks together by merging gives the same cues, as many
/// times each, whichever two are merged first; and however they are folded
/// left to right, cues that start at the same time come in the order of the
/// tracks, each track's own order kept.
pub proof fn lemma_merge_content_and_ties(a: Seq<CueView>, b: Seq<CueView>, c: Seq<CueView>)
    ensures
        sort_by_start(sort_by_start(a + b) + c).to_multiset() == sort_by_start(
            a + sort_by_start(b + c),
        ).to_multiset(),
        forall|k: nat|
            with_start(#[trigger] sort_by_start(sort_by_start(a + b) + c), k) == with_start(a, k)
                + with_start(b, k) + with_start(c, k),
{
    broadcast use vstd::seq_lib::lemma_multiset_commutative;

    lemma_sort_content(sort_by_start(a + b) + c);
    lemma_sort_content(a + b);
    lemma_sort_content(a + sort_by_start(b + c));
    lemma_sort_content(b + c);
    vstd::seq_lib::lemma_multiset_commutative(sort_by_start(a + b), c);
    vstd::seq_lib::lemma_multiset_commutative(a, b);
    vstd::seq_lib::lemma_multiset_commutative(a, sort_by_start(b + c));
    vstd::seq_lib::lemma_multiset_commutative(b, c);
    assert(a.to_multiset().add(b.to_multiset()).add(c.to_multiset()) =~= a.to_multiset().add(
        b.to_multiset().add(c.to_multiset()),
    ));
    assert forall|k: nat|
        with_start(#[trigger] sort_by_start(sort_by_start(a + b) + c), k) == with_start(a, k)
            + with_start(b, k) + with_start(c, k) by {
        lemma_sort_stable(sort_by_start(a + b) + c, k);
        lemma_with_start_add(sort_by_start(a + b), c, k);
        lemma_sort_stable(a + b, k);
        lemma_with_start_add(a, b, k);
    }
}

/// After tagging, every cue has the given speaker, whatever it had before;
/// tagging again with the same speaker changes nothing.
pub proof fn lemma_tag_total_idempotent(s: Seq<CueView>, speaker: Seq<char>)
    ensures
        tag_all(s, speaker).len() == s.len(),
        forall|i: int|
            0 <= i < s.len() ==> (#[trigger] tag_all(s, speaker)[i]).speaker == Some(speaker),
        tag_all(tag_all(s, speaker), speaker) == tag_all(s, speaker),
{
    assert(tag_all(tag_all(s, speaker), speaker) =~= tag_all(s, speaker));
}

/// Reading a timestamp, of any number of components, and writing it back
/// gives the three-component form `HH:MM:SS.mmm`, which reads back as the same
/// timestamp.
pub proof fn lemma_timestamp_round_trip(t: Seq<char>)
    requires
        timestamp_parse(t) is Ok,
    ensures
        split_on(timestamp_text(timestamp_parse(t)->Ok_0), ':').len() == 3,
        timestamp_parse(timestamp_text(timestamp_parse(t)->Ok_0)) == timestamp_parse(t),
{
    lemma_timestamp_text_parse(timestamp_parse(t)->Ok_0);
}

/// Writing a track whose cues have no speaker and one line of text each, and
/// reading the document back, gives the same cues.
pub proof fn lemma_track_round_trip(cs: Seq<CueView>)
    requires
        forall|i: int| 0 <= i < cs.len() ==> rereadable(#[trigger] cs[i]),
    ensures
        track_parse(track_text(cs)) == Ok::<Seq<CueView>, (Seq<char>, Seq<char>)>(cs),
{
    let t = track_text(cs);
    let e = Seq::<char>::empty();
    assert(t.take(6) =~= header());
    assert(t.skip(6) =~= seq!['\n'] + blocks_text(cs));
    lemma_blocks_split(cs);
    lemma_block_lines_no_cr(cs);
    lemma_block_lines_parse(cs);
    let bl = block_lines(cs);
    assert(split_on(t.skip(6), '\n') == bl.push(e));
    assert(bl.push(e).drop_last() =~= bl);
    assert(bl.map_values(|l: Seq<char>| crate::text::strip_cr(l)) =~= bl);
}

/// Writing a track read from a document and reading it back gives the same
/// cues, since every written block holds one line of text. A text line ending
/// in a `\r` with no line feed after it (only the document's last line can)
/// would lose that `\r`; such tracks are left out.
pub proof fn lemma_parsed_track_round_trip(s: Seq<char>)
    requires
        track_parse(s) is Ok,
        forall|i: int|
            0 <= i < track_parse(s)->Ok_0.len() ==> (#[trigger] track_parse(s)->Ok_0[i]).text.last()
                != '\r',
    ensures
        track_parse(track_text(track_parse(s)->Ok_0)) == track_parse(s),
{
    let cs = track_parse(s)->Ok_0;
    lemma_lines_lack_newline(s.skip(6));
    lemma_body_parse_cues(lines(s.skip(6)));
    assert forall|i: int| 0 <= i < cs.len() implies rereadable(#[trigger] cs[i]) by {}
    lemma_track_round_trip(cs);
}

} // verus!