use vstd::prelude::*;
use crate::error::WebVTTError;
use crate::text::{
    chars_of, split_chars, split_on, lemma_split_on_nonempty, string_of, push_char, lacks,
    is_blank, is_space, lemma_split_on_join, lemma_split_on_lacking,
};
use crate::timestamp::{
    Timestamp, timestamp_parse, timestamp_text, is_digit, is_time_char, lemma_timestamp_text_chars,
    lemma_timestamp_text_parse,
};

verus! {

pub open spec fn arrow() -> Seq<char> {
    seq!['-', '-', '>']
}

pub open spec fn msg_arrow() -> Seq<char> {
    "-->"@
}

pub open spec fn msg_end() -> Seq<char> {
    "a end time"@
}

/// Reads a timing line `start --> end`: the pieces between single spaces are
/// the start, the arrow and the end; pieces after them are ignored.
pub open spec fn range_parse(line: Seq<char>) -> Result<(nat, nat), (Seq<char>, Seq<char>)> {
    let toks = split_on(line, ' ');
    match timestamp_parse(toks[0]) {
        Err(e) => Err(e),
        Ok(a) => {
            let sep = if toks.len() > 1 {
                toks[1]
            } else {
                Seq::<char>::empty()
            };
            if sep != arrow() {
                Err((msg_arrow(), sep))
            } else if toks.len() < 3 {
                Err((msg_end(), Seq::<char>::empty()))
            } else {
                match timestamp_parse(toks[2]) {
                    Err(e) => Err(e),
                    Ok(b) => Ok((a, b)),
                }
            }
        },
    }
}

/// A timing line as `start --> end`.
pub open spec fn range_text(start: nat, end: nat) -> Seq<char> {
    timestamp_text(start) + seq![' '] + arrow() + seq![' '] + timestamp_text(end)
}

/// A timing line reads back as the range it was written from; it is one
/// line, not blank, and does not end in `\r`.
pub proof fn lemma_range_text_parse(a: nat, b: nat)
    requires
        a <= u64::MAX,
        b <= u64::MAX,
    ensures
        range_parse(range_text(a, b)) == Ok::<(nat, nat), (Seq<char>, Seq<char>)>((a, b)),
        lacks(range_text(a, b), '\n'),
        !is_blank(range_text(a, b)),
        range_text(a, b).last() != '\r',
{
    let ta = timestamp_text(a);
    let tb = timestamp_text(b);
    lemma_timestamp_text_chars(a);
    lemma_timestamp_text_chars(b);
    lemma_timestamp_text_parse(a);
    lemma_timestamp_text_parse(b);
    assert forall|i: int| 0 <= i < ta.len() implies is_time_char(#[trigger] ta[i]) by {}
    assert forall|i: int| 0 <= i < tb.len() implies is_time_char(#[trigger] tb[i]) by {}
    let r = range_text(a, b);
    let tail = arrow() + seq![' '] + tb;
    assert(r =~= ta + seq![' '] + tail);
    lemma_split_on_join(ta, tail, ' ');
    lemma_split_on_join(arrow(), tb, ' ');
    lemma_split_on_lacking(ta, ' ');
    lemma_split_on_lacking(tb, ' ');
    lemma_split_on_lacking(arrow(), ' ');
    assert(split_on(r, ' ') =~= seq![ta, arrow(), tb]);
    assert forall|i: int| 0 <= i < r.len() implies r[i] != '\n' by {
        if i < ta.len() {
            assert(r[i] == ta[i]);
        } else if i >= ta.len() + 5 {
            assert(r[i] == tb[i - ta.len() - 5]);
        }
    }
    assert(r[0] == ta[0]);
    assert(!is_space(r[0]));
    assert(r.last() == tb.last());
}

/// The span of time a cue is shown.
#[derive(Debug, Clone, Copy, PartialEq, Eq, Structural)]
pub struct Timerange {
    pub start: Timestamp,
    pub end: Timestamp,
}

fn is_arrow(s: &Vec<char>) -> (r: bool)
    ensures
        r == (s@ == arrow()),
{
    if s.len() == 3 && s[0] == '-' && s[1] == '-' && s[2] == '>' {
        assert(s@ =~= arrow());
        true
    } else {
        false
    }
}

impl Timerange {
    /// Reads a timing line such as `00:00:01.000 --> 00:00:02.000`.
    pub fn from(string: &str) -> (r: Result<Timerange, WebVTTError>)
        ensures
            match r {
                Ok(t) => range_parse(string@) == Ok::<(nat, nat), (Seq<char>, Seq<char>)>(
                    (t.start.millis as nat, t.end.millis as nat),
                ),
                Err(e) => range_parse(string@) == Err::<(nat, nat), (Seq<char>, Seq<char>)>(e@),
            },
    {
        proof {
            reveal_strlit("-->");
            reveal_strlit("");
            lemma_split_on_nonempty(string@, ' ');
        }
        let cs = chars_of(string);
        let toks = split_chars(&cs, ' ');
        let ghost tv = split_on(string@, ' ');
        assert(toks@[0]@ == tv[0]);
        let first = string_of(&toks[0]);
        let start = Timestamp::from(first.as_str())?;
        let sep = if toks.len() > 1 {
            assert(toks@[1]@ == tv[1]);
            string_of(&toks[1])
        } else {
            String::new()
        };
        let sep_chars = chars_of(sep.as_str());
        if !is_arrow(&sep_chars) {
            assert(msg_arrow() =~= arrow());
            return Err(WebVTTError::parsing("-->", sep.as_str()));
        }
        if toks.len() < 3 {
            assert(""@ =~= Seq::<char>::empty());
            return Err(WebVTTError::parsing("a end time", ""));
        }
        assert(toks@[2]@ == tv[2]);
        let last = string_of(&toks[2]);
        let end = Timestamp::from(last.as_str())?;
        Ok(Timerange { start, end })
    }

    /// Appends the timing line of this range.
    pub fn write_to(&self, out: &mut String)
        ensures
            final(out)@ == old(out)@ + range_text(
                self.start.millis as nat,
                self.end.millis as nat,
            ),
    {
        self.start.write_to(out);
        push_char(out, ' ');
        push_char(out, '-');
        push_char(out, '-');
        push_char(out, '>');
        push_char(out, ' ');
        self.end.write_to(out);
        assert(out@ =~= old(out)@ + range_text(self.start.millis as nat, self.end.millis as nat));
    }

    /// The timing line of this range.
    pub fn to_string(&self) -> (r: String)
        ensures
            r@ == range_text(self.start.millis as nat, self.end.millis as nat),
    {
        let mut out = String::new();
        self.write_to(&mut out);
        assert(out@ =~= range_text(self.start.millis as nat, self.end.millis as nat));
        out
    }
}

} // verus!
