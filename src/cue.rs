use vstd::prelude::*;
use crate::error::WebVTTError;
use crate::text::{push_char, push_chars, chars_of};
use crate::timerange::{Timerange, range_text};

verus! {

/// What a cue is: its start and end in milliseconds, its speaker if one was
/// set, and its one line of text.
pub struct CueView {
    pub start: nat,
    pub end: nat,
    pub speaker: Option<Seq<char>>,
    pub text: Seq<char>,
}

/// The prefix that names a speaker: `<v name>`.
pub open spec fn voice_tag(speaker: Option<Seq<char>>) -> Seq<char> {
    match speaker {
        Some(s) => seq!['<', 'v', ' '] + s + seq!['>'],
        None => Seq::<char>::empty(),
    }
}

/// A cue as a block of the document: a blank line, the timing line, and the
/// text after the speaker's tag.
pub open spec fn cue_text(c: CueView) -> Seq<char> {
    seq!['\n'] + range_text(c.start, c.end) + seq!['\n'] + voice_tag(c.speaker) + c.text + seq![
        '\n',
    ]
}

/// One timed line of subtitle text, with an optional speaker.
#[derive(Debug, Clone, PartialEq, Eq)]
pub struct WebVTTCue {
    pub range: Timerange,
    pub speaker: Option<String>,
    pub text: String,
}

impl View for WebVTTCue {
    type V = CueView;

    open spec fn view(&self) -> CueView {
        CueView {
            start: self.range.start.millis as nat,
            end: self.range.end.millis as nat,
            speaker: match self.speaker {
                Some(s) => Some(s@),
                None => None,
            },
            text: self.text@,
        }
    }
}

impl WebVTTCue {
    /// A cue showing the line `string` during `range`, with no speaker yet.
    pub fn from(range: &Timerange, string: &str) -> (r: Result<WebVTTCue, WebVTTError>)
        ensures
            r is Ok,
            r matches Ok(c) && c.range == *range && c.speaker is None && c.text@ == string@,
    {
        Ok(WebVTTCue { range: *range, speaker: None, text: string.to_owned() })
    }

    /// Appends the block of this cue.
    pub fn write_to(&self, out: &mut String)
        ensures
            final(out)@ == old(out)@ + cue_text(self@),
    {
        push_char(out, '\n');
        self.range.write_to(out);
        push_char(out, '\n');
        match &self.speaker {
            Some(s) => {
                push_char(out, '<');
                push_char(out, 'v');
                push_char(out, ' ');
                let sc = chars_of(s.as_str());
                push_chars(out, &sc);
                push_char(out, '>');
            },
            None => {},
        }
        let tc = chars_of(self.text.as_str());
        push_chars(out, &tc);
        push_char(out, '\n');
        assert(out@ =~= old(out)@ + cue_text(self@));
    }

    /// The block of this cue.
    pub fn to_string(&self) -> (r: String)
        ensures
            r@ == cue_text(self@),
    {
        let mut out = String::new();
        self.write_to(&mut out);
        assert(out@ =~= cue_text(self@));
        out
    }
}

} // verus!
