use vstd::prelude::*;
use crate::cue::{CueView, WebVTTCue, cue_text};
use crate::error::WebVTTError;
use crate::text::{
    chars_of, lines, lines_of, is_blank, is_blank_line, string_of, push_char, lacks, split_on,
    strip_cr, lemma_split_on_join, lemma_split_on_lacking, lemma_lines_lack_newline,
};
use crate::timerange::{Timerange, range_parse, range_text, lemma_range_text_parse};
use crate::timestamp::timestamp_parse;
use crate::order::{
    insert_pos, is_sorted, lemma_insert_pos, lemma_sort_of_sorted, lemma_sort_sorted,
    lemma_sort_stable, sort_by_start, with_start,
};

verus! {

/// The cues held by `v`, as values.
pub open spec fn cues_view(v: Seq<WebVTTCue>) -> Seq<CueView> {
    v.map_values(|c: WebVTTCue| c@)
}

/// Every cue of `s` with its speaker set to `speaker`.
pub open spec fn tag_all(s: Seq<CueView>, speaker: Seq<char>) -> Seq<CueView> {
    s.map_values(|c: CueView| CueView { speaker: Some(speaker), ..c })
}

/// The word a document starts with.
pub open spec fn header() -> Seq<char> {
    seq!['W', 'E', 'B', 'V', 'T', 'T']
}

pub open spec fn msg_header() -> Seq<char> {
    "WEBVTT"@
}

pub open spec fn starts_with_header(s: Seq<char>) -> bool {
    s.len() >= 6 && s.take(6) == header()
}

/// The first line of `s`, empty where `s` has none.
pub open spec fn first_line(s: Seq<char>) -> Seq<char> {
    if lines(s).len() > 0 {
        lines(s)[0]
    } else {
        Seq::<char>::empty()
    }
}

/// Reads the lines of a document after its header: a blank line ends a block;
/// the first line of a block is its timing line, and every line after it
/// there is one cue with that timing. The result is the cues, and the timing
/// of the block still open.
pub open spec fn body_parse(ls: Seq<Seq<char>>) -> Result<
    (Seq<CueView>, Option<(nat, nat)>),
    (Seq<char>, Seq<char>),
>
    decreases ls.len(),
{
    if ls.len() == 0 {
        Ok((Seq::<CueView>::empty(), None))
    } else {
        match body_parse(ls.drop_last()) {
            Err(e) => Err(e),
            Ok((cues, pending)) => {
                let l = ls.last();
                if is_blank(l) {
                    Ok((cues, None))
                } else {
                    match pending {
                        None => match range_parse(l) {
                            Err(e) => Err(e),
                            Ok(r) => Ok((cues, Some(r))),
                        },
                        Some(r) => Ok(
                            (
                                cues.push(CueView { start: r.0, end: r.1, speaker: None, text: l }),
                                Some(r),
                            ),
                        ),
                    }
                }
            },
        }
    }
}

/// Reads a whole document: the word `WEBVTT` at its very start, then the
/// blocks of cues.
pub open spec fn track_parse(s: Seq<char>) -> Result<Seq<CueView>, (Seq<char>, Seq<char>)> {
    if !starts_with_header(s) {
        Err((msg_header(), first_line(s)))
    } else {
        match body_parse(lines(s.skip(6))) {
            Err(e) => Err(e),
            Ok((cues, _)) => Ok(cues),
        }
    }
}

/// The blocks of the cues of `s`, one after another.
pub open spec fn blocks_text(s: Seq<CueView>) -> Seq<char>
    decreases s.len(),
{
    if s.len() == 0 {
        Seq::<char>::empty()
    } else {
        blocks_text(s.drop_last()) + cue_text(s.last())
    }
}

/// A track as a document: the header line, then one block per cue.
pub open spec fn track_text(s: Seq<CueView>) -> Seq<char> {
    header() + seq!['\n'] + blocks_text(s)
}

pub proof fn lemma_body_parse_err(ls: Seq<Seq<char>>, i: int)
    requires
        0 <= i <= ls.len(),
        body_parse(ls.take(i)) is Err,
    ensures
        body_parse(ls) == body_parse(ls.take(i)),
    decreases ls.len() - i,
{
    if i < ls.len() {
        assert(ls.take(i + 1).drop_last() =~= ls.take(i));
        lemma_body_parse_err(ls, i + 1);
    } else {
        assert(ls.take(i) =~= ls);
    }
}

/// A cue that reads back as itself once written: no speaker, times that fit
/// in `u64`, and text that is one line, not blank, not ending in `\r`.
pub open spec fn rereadable(c: CueView) -> bool {
    &&& c.speaker is None
    &&& c.start <= u64::MAX
    &&& c.end <= u64::MAX
    &&& !is_blank(c.text)
    &&& lacks(c.text, '\n')
    &&& c.text.last() != '\r'
}

/// The lines of a written track after its header.
pub open spec fn block_lines(cs: Seq<CueView>) -> Seq<Seq<char>>
    decreases cs.len(),
{
    if cs.len() == 0 {
        seq![Seq::<char>::empty()]
    } else {
        let c = cs.last();
        block_lines(cs.drop_last()) + seq![Seq::<char>::empty(), range_text(c.start, c.end), c.text]
    }
}

/// The timing of the last cue of `cs`, if there is one.
pub open spec fn last_range(cs: Seq<CueView>) -> Option<(nat, nat)> {
    if cs.len() == 0 {
        None
    } else {
        Some((cs.last().start, cs.last().end))
    }
}

/// The cues read from lines that hold no line feed have no speaker, times
/// that fit in `u64`, and one line of text that is not blank.
pub proof fn lemma_body_parse_cues(ls: Seq<Seq<char>>)
    requires
        forall|i: int| 0 <= i < ls.len() ==> lacks(#[trigger] ls[i], '\n'),
        body_parse(ls) is Ok,
    ensures
        forall|i: int|
            0 <= i < body_parse(ls)->Ok_0.0.len() ==> {
                let c = #[trigger] body_parse(ls)->Ok_0.0[i];
                &&& c.speaker is None
                &&& c.start <= u64::MAX
                &&& c.end <= u64::MAX
                &&& !is_blank(c.text)
                &&& lacks(c.text, '\n')
            },
        body_parse(ls)->Ok_0.1 matches Some(r) ==> r.0 <= u64::MAX && r.1 <= u64::MAX,
    decreases ls.len(),
{
    if ls.len() > 0 {
        let d = ls.drop_last();
        assert forall|i: int| 0 <= i < d.len() implies lacks(#[trigger] d[i], '\n') by {
            assert(d[i] == ls[i]);
        }
        assert(body_parse(d) is Ok);
        lemma_body_parse_cues(d);
        assert(lacks(ls.last(), '\n'));
        let cues = body_parse(d)->Ok_0.0;
        let l = ls.last();
        if !is_blank(l) && body_parse(d)->Ok_0.1 is None {
            let toks = split_on(l, ' ');
            assert(range_parse(l) is Ok);
            assert(timestamp_parse(toks[0]) is Ok);
        } else if !is_blank(l) {
            let out = body_parse(ls)->Ok_0.0;
            assert forall|i: int| 0 <= i < out.len() implies ({
                let c = #[trigger] out[i];
                &&& c.speaker is None
                &&& c.start <= u64::MAX
                &&& c.end <= u64::MAX
                &&& !is_blank(c.text)
                &&& lacks(c.text, '\n')
            }) by {
                if i < cues.len() {
                    assert(out[i] == cues[i]);
                }
            }
        }
    }
}

pub proof fn lemma_rereadable_prefix(cs: Seq<CueView>)
    requires
        cs.len() > 0,
        forall|i: int| 0 <= i < cs.len() ==> rereadable(#[trigger] cs[i]),
    ensures
        rereadable(cs.last()),
        forall|i: int| 0 <= i < cs.len() - 1 ==> rereadable(#[trigger] cs.drop_last()[i]),
{
    assert forall|i: int| 0 <= i < cs.len() - 1 implies rereadable(#[trigger] cs.drop_last()[i]) by {
        assert(cs.drop_last()[i] == cs[i]);
    }
}

/// Splitting a written track after its header at its line feeds.
pub proof fn lemma_blocks_split(cs: Seq<CueView>)
    requires
        forall|i: int| 0 <= i < cs.len() ==> rereadable(#[trigger] cs[i]),
    ensures
        split_on(seq!['\n'] + blocks_text(cs), '\n') == block_lines(cs).push(
            Seq::<char>::empty(),
        ),
    decreases cs.len(),
{
    let e = Seq::<char>::empty();
    lemma_split_on_lacking(e, '\n');
    if cs.len() == 0 {
        assert(seq!['\n'] + blocks_text(cs) =~= e + seq!['\n'] + e);
        lemma_split_on_join(e, e, '\n');
        assert(seq![e] + seq![e] =~= seq![e].push(e));
    } else {
        let d = cs.drop_last();
        let c = cs.last();
        lemma_rereadable_prefix(cs);
        lemma_blocks_split(d);
        lemma_range_text_parse(c.start, c.end);
        let r = range_text(c.start, c.end);
        let t = c.text;
        let y = r + seq!['\n'] + (t + seq!['\n'] + e);
        assert(seq!['\n'] + blocks_text(cs) =~= (seq!['\n'] + blocks_text(d)) + seq!['\n'] + y);
        lemma_split_on_join(seq!['\n'] + blocks_text(d), y, '\n');
        lemma_split_on_join(r, t + seq!['\n'] + e, '\n');
        lemma_split_on_join(t, e, '\n');
        lemma_split_on_lacking(r, '\n');
        lemma_split_on_lacking(t, '\n');
        assert(split_on(seq!['\n'] + blocks_text(cs), '\n') =~= block_lines(cs).push(e));
    }
}

/// No line of a written track ends in `\r`.
pub proof fn lemma_block_lines_no_cr(cs: Seq<CueView>)
    requires
        forall|i: int| 0 <= i < cs.len() ==> rereadable(#[trigger] cs[i]),
    ensures
        forall|i: int|
            0 <= i < block_lines(cs).len() ==> strip_cr(#[trigger] block_lines(cs)[i])
                == block_lines(cs)[i],
    decreases cs.len(),
{
    if cs.len() > 0 {
        let d = cs.drop_last();
        let c = cs.last();
        lemma_rereadable_prefix(cs);
        lemma_block_lines_no_cr(d);
        lemma_range_text_parse(c.start, c.end);
        let bd = block_lines(d);
        let tail = seq![Seq::<char>::empty(), range_text(c.start, c.end), c.text];
        assert forall|i: int|
            0 <= i < block_lines(cs).len() implies strip_cr(#[trigger] block_lines(cs)[i])
            == block_lines(cs)[i] by {
            if i < bd.len() {
                assert(block_lines(cs)[i] == bd[i]);
            } else {
                assert(block_lines(cs)[i] == tail[i - bd.len()]);
            }
        }
    }
}

/// Reading the lines of a written track gives back its cues.
pub proof fn lemma_block_lines_parse(cs: Seq<CueView>)
    requires
        forall|i: int| 0 <= i < cs.len() ==> rereadable(#[trigger] cs[i]),
    ensures
        body_parse(block_lines(cs)) == Ok::<
            (Seq<CueView>, Option<(nat, nat)>),
            (Seq<char>, Seq<char>),
        >((cs, last_range(cs))),
    decreases cs.len(),
{
    let e = Seq::<char>::empty();
    assert(is_blank(e));
    if cs.len() == 0 {
        assert(seq![e].drop_last() =~= Seq::<Seq<char>>::empty());
        assert(seq![e].last() == e);
        assert(cs =~= Seq::<CueView>::empty());
        assert(block_lines(cs) == seq![e]);
        assert(body_parse(seq![e].drop_last()) == Ok::<
            (Seq<CueView>, Option<(nat, nat)>),
            (Seq<char>, Seq<char>),
        >((Seq::<CueView>::empty(), None)));
        assert(body_parse(seq![e]) == Ok::<
            (Seq<CueView>, Option<(nat, nat)>),
            (Seq<char>, Seq<char>),
        >((Seq::<CueView>::empty(), None)));
    } else {
        let d = cs.drop_last();
        let c = cs.last();
        lemma_rereadable_prefix(cs);
        lemma_block_lines_parse(d);
        lemma_range_text_parse(c.start, c.end);
        let r = range_text(c.start, c.end);
        let bd = block_lines(d);
        let l1 = bd.push(e);
        let l2 = l1.push(r);
        assert(block_lines(cs) =~= l2.push(c.text));
        assert(l2.drop_last() =~= l1);
        assert(l1.drop_last() =~= bd);
        assert(l2.push(c.text).drop_last() =~= l2);
        assert(l1.last() == e && l2.last() == r && l2.push(c.text).last() == c.text);
        assert(body_parse(l1) == Ok::<
            (Seq<CueView>, Option<(nat, nat)>),
            (Seq<char>, Seq<char>),
        >((d, None)));
        assert(!is_blank(r));
        assert(body_parse(l2) == Ok::<
            (Seq<CueView>, Option<(nat, nat)>),
            (Seq<char>, Seq<char>),
        >((d, Some((c.start, c.end)))));
        assert(c == CueView { start: c.start, end: c.end, speaker: None, text: c.text });
        assert(d.push(c) =~= cs);
        assert(body_parse(l2.push(c.text)) == Ok::<
            (Seq<CueView>, Option<(nat, nat)>),
            (Seq<char>, Seq<char>),
        >((cs, Some((c.start, c.end)))));
    }
}

/// The timing of the open block, as values.
pub open spec fn pending_view(p: Option<Timerange>) -> Option<(nat, nat)> {
    match p {
        Some(r) => Some((r.start.millis as nat, r.end.millis as nat)),
        None => None,
    }
}

fn has_header(cs: &Vec<char>) -> (r: bool)
    ensures
        r == starts_with_header(cs@),
{
    if cs.len() >= 6 && cs[0] == 'W' && cs[1] == 'E' && cs[2] == 'B' && cs[3] == 'V' && cs[4]
        == 'T' && cs[5] == 'T' {
        assert(cs@.take(6) =~= header());
        true
    } else {
        proof {
            if cs.len() >= 6 {
                assert(cs@.take(6)[0] == cs@[0] && cs@.take(6)[1] == cs@[1] && cs@.take(6)[2]
                    == cs@[2] && cs@.take(6)[3] == cs@[3] && cs@.take(6)[4] == cs@[4]
                    && cs@.take(6)[5] == cs@[5]);
            }
        }
        false
    }
}

/// The characters of `s` from `from` on.
fn skip_chars(s: &Vec<char>, from: usize) -> (r: Vec<char>)
    requires
        from <= s.len(),
    ensures
        r@ == s@.skip(from as int),
{
    let mut r: Vec<char> = Vec::new();
    let mut i = from;
    while i < s.len()
        invariant
            from <= i <= s.len(),
            r@ == s@.subrange(from as int, i as int),
        decreases s.len() - i,
    {
        r.push(s[i]);
        assert(r@ =~= s@.subrange(from as int, i + 1));
        i = i + 1;
    }
    assert(r@ =~= s@.skip(from as int));
    r
}

/// A track: the cues of one document, in order.
#[derive(Debug, Clone, PartialEq, Eq)]
pub struct WebVTT {
    pub cues: Vec<WebVTTCue>,
}

impl View for WebVTT {
    type V = Seq<CueView>;

    open spec fn view(&self) -> Seq<CueView> {
        cues_view(self.cues@)
    }
}

/// Where a cue starting at `k` goes into the cues of `out`.
fn insertion_point(out: &Vec<WebVTTCue>, k: u64) -> (r: usize)
    ensures
        r as int == insert_pos(cues_view(out@), k as nat),
{
    let ghost ov = cues_view(out@);
    let mut j = out.len();
    assert(ov.take(j as int) =~= ov);
    while j > 0 && out[j - 1].range.start.millis > k
        invariant
            j <= out.len(),
            ov == cues_view(out@),
            insert_pos(ov, k as nat) == insert_pos(ov.take(j as int), k as nat),
        decreases j,
    {
        assert(ov.take(j as int).drop_last() =~= ov.take(j - 1));
        j = j - 1;
    }
    j
}

impl WebVTT {
    /// A track with no cues.
    pub fn new() -> (r: WebVTT)
        ensures
            r@ == Seq::<CueView>::empty(),
    {
        let r = WebVTT { cues: Vec::new() };
        assert(r@ =~= Seq::<CueView>::empty());
        r
    }

    /// Reads a document.
    pub fn from(string: &str) -> (r: Result<WebVTT, WebVTTError>)
        ensures
            match r {
                Ok(t) => track_parse(string@) == Ok::<Seq<CueView>, (Seq<char>, Seq<char>)>(t@),
                Err(e) => track_parse(string@) == Err::<Seq<CueView>, (Seq<char>, Seq<char>)>(e@),
            },
    {
        let cs = chars_of(string);
        if !has_header(&cs) {
            let ls = lines_of(&cs);
            let first = if ls.len() > 0 {
                assert(ls@[0]@ == lines(string@)[0]);
                string_of(&ls[0])
            } else {
                String::new()
            };
            return Err(WebVTTError::parsing("WEBVTT", first.as_str()));
        }
        let rest = skip_chars(&cs, 6);
        let ls = lines_of(&rest);
        let ghost lv = lines(string@.skip(6));
        let mut cues: Vec<WebVTTCue> = Vec::new();
        let mut pending: Option<Timerange> = None;
        let mut i: usize = 0;
        assert(lv.take(0) =~= Seq::<Seq<char>>::empty());
        assert(cues_view(cues@) =~= Seq::<CueView>::empty());
        while i < ls.len()
            invariant
                i <= ls.len() == lv.len(),
                lv == lines(string@.skip(6)),
                starts_with_header(string@),
                ls@.map_values(|p: Vec<char>| p@) == lv,
                body_parse(lv.take(i as int)) == Ok::<
                    (Seq<CueView>, Option<(nat, nat)>),
                    (Seq<char>, Seq<char>),
                >((cues_view(cues@), pending_view(pending))),
            decreases ls.len() - i,
        {
            let line = &ls[i];
            assert(line@ == lv[i as int]);
            assert(lv.take(i + 1).drop_last() =~= lv.take(i as int));
            if is_blank_line(line) {
                pending = None;
            } else {
                match pending {
                    None => {
                        let text = string_of(line);
                        match Timerange::from(text.as_str()) {
                            Ok(r) => {
                                pending = Some(r);
                            },
                            Err(e) => {
                                proof {
                                    lemma_body_parse_err(lv, i + 1);
                                }
                                return Err(e);
                            },
                        }
                    },
                    Some(r) => {
                        let text = string_of(line);
                        match WebVTTCue::from(&r, text.as_str()) {
                            Ok(c) => {
                                let ghost before = cues_view(cues@);
                                cues.push(c);
                                assert(cues_view(cues@) =~= before.push(c@));
                            },
                            Err(e) => {
                                return Err(e);
                            },
                        }
                    },
                }
            }
            i = i + 1;
        }
        assert(lv.take(lv.len() as int) =~= lv);
        Ok(WebVTT { cues })
    }

    /// The document of this track.
    pub fn to_string(&self) -> (r: String)
        ensures
            r@ == track_text(self@),
    {
        let mut out = String::new();
        push_char(&mut out, 'W');
        push_char(&mut out, 'E');
        push_char(&mut out, 'B');
        push_char(&mut out, 'V');
        push_char(&mut out, 'T');
        push_char(&mut out, 'T');
        push_char(&mut out, '\n');
        let ghost head = out@;
        assert(head =~= header() + seq!['\n']);
        let mut i: usize = 0;
        assert(self@.take(0) =~= Seq::<CueView>::empty());
        while i < self.cues.len()
            invariant
                i <= self.cues.len(),
                head == header() + seq!['\n'],
                out@ == head + blocks_text(self@.take(i as int)),
            decreases self.cues.len() - i,
        {
            self.cues[i].write_to(&mut out);
            assert(self@.take(i + 1).drop_last() =~= self@.take(i as int));
            assert(self@[i as int] == self.cues@[i as int]@);
            assert(out@ =~= head + blocks_text(self@.take(i + 1)));
            i = i + 1;
        }
        assert(self@.take(self.cues.len() as int) =~= self@);
        out
    }

    /// Whether the cues are in order of start time.
    pub fn is_ordered(&self) -> (r: bool)
        ensures
            r == is_sorted(self@),
    {
        let mut i: usize = 1;
        if self.cues.len() == 0 {
            return true;
        }
        while i < self.cues.len()
            invariant
                1 <= i <= self.cues.len(),
                forall|a: int, b: int| 0 <= a < b < i ==> self@[a].start <= self@[b].start,
            decreases self.cues.len() - i,
        {
            if self.cues[i - 1].range.start.millis > self.cues[i].range.start.millis {
                assert(self@[i - 1].start > self@[i as int].start);
                return false;
            }
            assert forall|a: int, b: int| 0 <= a < b < i + 1 implies self@[a].start
                <= self@[b].start by {
                if b == i && a < i - 1 {
                    assert(self@[a].start <= self@[i - 1].start);
                }
            }
            i = i + 1;
        }
        true
    }

    /// Orders the cues by start time; cues that start together keep their
    /// order.
    pub fn sort(&mut self)
        ensures
            final(self)@ == sort_by_start(old(self)@),
            is_sorted(final(self)@),
            forall|k: nat| with_start(#[trigger] final(self)@, k) == with_start(old(self)@, k),
    {
        let ghost s = self@;
        let mut src: Vec<WebVTTCue> = Vec::new();
        std::mem::swap(&mut src, &mut self.cues);
        let mut out: Vec<WebVTTCue> = Vec::new();
        let ghost mut i: int = 0;
        assert(s.take(0) =~= Seq::<CueView>::empty());
        assert(s.skip(0) =~= s);
        while src.len() > 0
            invariant
                0 <= i <= s.len(),
                cues_view(src@) == s.skip(i),
                cues_view(out@) == sort_by_start(s.take(i)),
            decreases src.len(),
        {
            let ghost sv = cues_view(src@);
            assert(sv.len() == src@.len());
            assert(i < s.len());
            let c = src.remove(0);
            assert(c@ == sv[0]);
            assert(sv[0] == s.skip(i)[0]);
            assert(c@ == s[i]);
            assert(cues_view(src@) =~= sv.skip(1));
            assert(sv.skip(1) =~= s.skip(i + 1));
            let j = insertion_point(&out, c.range.start.millis);
            proof {
                lemma_sort_sorted(s.take(i));
                lemma_insert_pos(cues_view(out@), c.range.start.millis as nat);
                assert(s.take(i + 1).drop_last() =~= s.take(i));
            }
            let ghost before = cues_view(out@);
            out.insert(j, c);
            assert(cues_view(out@) =~= before.insert(j as int, c@));
            proof {
                i = i + 1;
            }
        }
        assert(s.take(i) =~= s);
        self.cues = out;
        proof {
            lemma_sort_sorted(s);
            assert forall|k: nat| with_start(#[trigger] self@, k) == with_start(s, k) by {
                lemma_sort_stable(s, k);
            }
        }
    }

    /// Sets the speaker of every cue to `speaker`, whatever it was before.
    pub fn set_speaker_for_all_lines(&mut self, speaker: &str)
        ensures
            final(self)@ == tag_all(old(self)@, speaker@),
    {
        let ghost s = self@;
        let mut i: usize = 0;
        while i < self.cues.len()
            invariant
                i <= self.cues.len() == s.len(),
                forall|j: int| 0 <= j < i ==> (#[trigger] self.cues@[j])@ == tag_all(s, speaker@)[j],
                forall|j: int| i <= j < s.len() ==> (#[trigger] self.cues@[j])@ == s[j],
            decreases s.len() - i,
        {
            self.cues[i].speaker = Some(speaker.to_owned());
            i = i + 1;
        }
        assert(self@ =~= tag_all(s, speaker@));
    }

    /// Moves the cues of `other` after those of this track, then orders the
    /// whole by start time.
    pub fn merge_with(&mut self, other: WebVTT)
        ensures
            final(self)@ == sort_by_start(old(self)@ + other@),
    {
        let mut other = other;
        let ghost a = self@;
        let ghost b = other@;
        self.cues.append(&mut other.cues);
        assert(self@ =~= a + b);
        self.sort();
    }
}

/// Reads one document, orders its cues by start, gives them all the speaker
/// `speaker`, and merges them into `acc`. The result tells whether the
/// document's cues were already in order. Where the document cannot be read,
/// `acc` is left as it was.
pub fn merge_document(acc: &mut WebVTT, text: &str, speaker: &str) -> (r: Result<
    bool,
    WebVTTError,
>)
    ensures
        match r {
            Ok(in_order) => track_parse(text@) matches Ok(doc) && in_order == (sort_by_start(doc)
                == doc) && final(acc)@ == sort_by_start(
                old(acc)@ + tag_all(sort_by_start(doc), speaker@),
            ),
            Err(e) => track_parse(text@) == Err::<Seq<CueView>, (Seq<char>, Seq<char>)>(e@)
                && final(acc)@ == old(acc)@,
        },
{
    let mut file = WebVTT::from(text)?;
    let in_order = file.is_ordered();
    proof {
        lemma_sort_sorted(file@);
        if in_order {
            lemma_sort_of_sorted(file@);
        }
    }
    file.sort();
    file.set_speaker_for_all_lines(speaker);
    acc.merge_with(file);
    Ok(in_order)
}

} // verus!