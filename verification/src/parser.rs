//! A resumable parser for ECMA-48 control sequences. Parsing is a pure
//! function of an immutable character buffer and a scan position: it returns
//! how far it advanced together with the classified node, or reports that the
//! buffer ended before a classification could be decided.
//!
//! The grammar is an ordered alternation: control string, independent control
//! function, control sequence, C1 control, C0 control, text, and a single-char
//! fallback, tried in that fixed order. Each alternative distinguishes
//! "definitely not this kind" from "ran out of characters before deciding";
//! the latter always wins over guessing.

use vstd::prelude::*;

verus! {

/// The classification of one parsed unit of the character stream.
#[derive(Debug)]
pub enum Node {
    Text(String),
    C0Control(char),
    C1Control(char),
    ControlSequence {
        parameter_bytes: Option<String>,
        intermediate_bytes: Option<String>,
        final_byte: char,
    },
    IndependentControlFunction(char),
    ControlString { opening: char, character_string: String },
    Unknown(char),
}

/// The mathematical model of a [`Node`]: the same variants over `Seq<char>`.
pub enum NodeModel {
    Text(Seq<char>),
    C0Control(char),
    C1Control(char),
    ControlSequence {
        parameter_bytes: Option<Seq<char>>,
        intermediate_bytes: Option<Seq<char>>,
        final_byte: char,
    },
    IndependentControlFunction(char),
    ControlString { opening: char, character_string: Seq<char> },
    Unknown(char),
}

impl View for Node {
    type V = NodeModel;

    open spec fn view(&self) -> NodeModel {
        match self {
            Node::Text(t) => NodeModel::Text(t@),
            Node::C0Control(c) => NodeModel::C0Control(*c),
            Node::C1Control(c) => NodeModel::C1Control(*c),
            Node::ControlSequence { parameter_bytes, intermediate_bytes, final_byte } => {
                NodeModel::ControlSequence {
                    parameter_bytes: match parameter_bytes {
                        Some(p) => Some(p@),
                        None => None,
                    },
                    intermediate_bytes: match intermediate_bytes {
                        Some(p) => Some(p@),
                        None => None,
                    },
                    final_byte: *final_byte,
                }
            },
            Node::IndependentControlFunction(c) => NodeModel::IndependentControlFunction(*c),
            Node::ControlString { opening, character_string } => {
                NodeModel::ControlString { opening: *opening, character_string: character_string@ }
            },
            Node::Unknown(c) => NodeModel::Unknown(*c),
        }
    }
}

/// The outcome of one [`Node::parse`] call: a match that advanced the scan
/// position to the given index, or a report that more input is needed before
/// any classification can be decided.
#[derive(Debug)]
pub enum NodeParseResult {
    Match(usize, Node),
    Indeterminate,
}

/// The model of a [`NodeParseResult`].
pub enum SpecParseResult {
    Match(int, NodeModel),
    Indeterminate,
}

impl View for NodeParseResult {
    type V = SpecParseResult;

    open spec fn view(&self) -> SpecParseResult {
        match self {
            NodeParseResult::Match(i, n) => SpecParseResult::Match(*i as int, n@),
            NodeParseResult::Indeterminate => SpecParseResult::Indeterminate,
        }
    }
}

/// The outcome of one sub-parser: a match that advanced the scan position,
/// a definite mismatch (try the next alternative), or "ran out of input
/// before this alternative could decide".
pub enum TryIntermediateResult<T> {
    Match(usize, T),
    NoMatch,
    Indeterminate,
}

/// The model of a sub-parser outcome.
pub enum SpecStep<T> {
    Match(int, T),
    NoMatch,
    Indeterminate,
}

impl<T> TryIntermediateResult<T> {
    /// Make a sub-parser outcome optional: a definite mismatch becomes an
    /// empty match at position `i`, but running out of input stays
    /// indeterminate — optionality does not excuse a missing decision.
    fn optional(self, i: usize) -> (r: TryIntermediateResult<Option<T>>)
        ensures
            (match self {
                TryIntermediateResult::Match(j, v) => r == TryIntermediateResult::<Option<T>>::Match(
                    j,
                    Some(v),
                ),
                TryIntermediateResult::NoMatch => r == TryIntermediateResult::<Option<T>>::Match(
                    i,
                    None,
                ),
                TryIntermediateResult::Indeterminate => r is Indeterminate,
            }),
    {
        match self {
            TryIntermediateResult::Match(j, v) => TryIntermediateResult::Match(j, Some(v)),
            TryIntermediateResult::NoMatch => TryIntermediateResult::Match(i, None),
            TryIntermediateResult::Indeterminate => TryIntermediateResult::Indeterminate,
        }
    }
}

/// A character with the Unicode general category for control codes, as
/// `char::is_control` defines it.
pub open spec fn is_control_char(c: char) -> bool {
    (c as u32) <= 0x1F || (0x7F <= (c as u32) && (c as u32) <= 0x9F)
}

/// A character that may open a control string: APC, DCS, OSC, PM or SOS.
pub open spec fn is_control_string_opening(c: char) -> bool {
    c == '\x5F' || c == '\x50' || c == '\x5D' || c == '\x5E' || c == '\x58'
}

/// Expect the characters of `prefix` verbatim at position `i`. A full match
/// advances past the prefix; the buffer ending mid-prefix is indeterminate.
pub open spec fn spec_skip_delimiter(s: Seq<char>, i: int, prefix: Seq<char>) -> SpecStep<()> {
    let n = if s.len() - i < prefix.len() {
        s.len() - i
    } else {
        prefix.len() as int
    };
    if s.subrange(i, i + n) =~= prefix.take(n) {
        if n == prefix.len() {
            SpecStep::Match(i + n, ())
        } else {
            SpecStep::Indeterminate
        }
    } else {
        SpecStep::NoMatch
    }
}

/// Expect one character in the inclusive range `lo..=hi` at position `i`.
pub open spec fn spec_capture_single(s: Seq<char>, i: int, lo: char, hi: char) -> SpecStep<char> {
    if i >= s.len() {
        SpecStep::Indeterminate
    } else if lo <= s[i] && s[i] <= hi {
        SpecStep::Match(i + 1, s[i])
    } else {
        SpecStep::NoMatch
    }
}

/// The first position at or after `i` whose character is not in `lo..=hi`
/// (or the end of the buffer).
pub open spec fn run_end(s: Seq<char>, i: int, lo: char, hi: char) -> int
    decreases s.len() - i,
    when 0 <= i <= s.len()
{
    if i >= s.len() {
        i
    } else if lo <= s[i] && s[i] <= hi {
        run_end(s, i + 1, lo, hi)
    } else {
        i
    }
}

/// Capture a maximal nonempty run of characters in `lo..=hi`. The run being
/// cut off by the end of the buffer is indeterminate: more of it may arrive.
pub open spec fn spec_capture_group(s: Seq<char>, i: int, lo: char, hi: char) -> SpecStep<
    Seq<char>,
> {
    if i >= s.len() {
        SpecStep::Indeterminate
    } else if !(lo <= s[i] && s[i] <= hi) {
        SpecStep::NoMatch
    } else {
        let j = run_end(s, i, lo, hi);
        if j == s.len() {
            SpecStep::Indeterminate
        } else {
            SpecStep::Match(j, s.subrange(i, j))
        }
    }
}

/// The first position at or after `i` holding a control character (or the
/// end of the buffer).
pub open spec fn text_run_end(s: Seq<char>, i: int) -> int
    decreases s.len() - i,
    when 0 <= i <= s.len()
{
    if i >= s.len() {
        i
    } else if !is_control_char(s[i]) {
        text_run_end(s, i + 1)
    } else {
        i
    }
}

/// Capture a maximal nonempty run of non-control characters, settling for
/// what is there when the buffer ends.
pub open spec fn spec_capture_group_lazy(s: Seq<char>, i: int) -> SpecStep<Seq<char>> {
    if i >= s.len() {
        SpecStep::Indeterminate
    } else if is_control_char(s[i]) {
        SpecStep::NoMatch
    } else {
        SpecStep::Match(text_run_end(s, i), s.subrange(i, text_run_end(s, i)))
    }
}

/// Make a sub-parser outcome optional: a mismatch becomes an empty match at
/// the original position, but running out of input stays indeterminate.
pub open spec fn spec_optional<T>(st: SpecStep<T>, i: int) -> SpecStep<Option<T>> {
    match st {
        SpecStep::Match(j, v) => SpecStep::Match(j, Some(v)),
        SpecStep::NoMatch => SpecStep::Match(i, None),
        SpecStep::Indeterminate => SpecStep::Indeterminate,
    }
}

/// The body of a control string: every character up to a String Terminator
/// (ESC `\`) or a BEL, whichever comes first; the terminator is consumed but
/// not kept. No terminator before the end of the buffer is indeterminate.
pub open spec fn spec_capture_character_string(s: Seq<char>, i: int) -> SpecStep<Seq<char>>
    decreases s.len() - i,
    when 0 <= i <= s.len()
{
    match spec_skip_delimiter(s, i, seq!['\x1B', '\x5C']) {
        SpecStep::Match(j, _) => SpecStep::Match(j, Seq::empty()),
        SpecStep::Indeterminate => SpecStep::Indeterminate,
        SpecStep::NoMatch => match spec_skip_delimiter(s, i, seq!['\x07']) {
            SpecStep::Match(j, _) => SpecStep::Match(j, Seq::empty()),
            SpecStep::Indeterminate => SpecStep::Indeterminate,
            SpecStep::NoMatch => if i >= s.len() {
                SpecStep::Indeterminate
            } else {
                match spec_capture_character_string(s, i + 1) {
                    SpecStep::Match(j, rest) => SpecStep::Match(j, seq![s[i]] + rest),
                    SpecStep::NoMatch => SpecStep::NoMatch,
                    SpecStep::Indeterminate => SpecStep::Indeterminate,
                }
            },
        },
    }
}

/// A C0 control node: one character in `\x00..=\x1F`.
pub open spec fn spec_parse_c0_control(s: Seq<char>, i: int) -> SpecStep<NodeModel> {
    match spec_capture_single(s, i, '\x00', '\x1F') {
        SpecStep::Match(j, c) => SpecStep::Match(j, NodeModel::C0Control(c)),
        SpecStep::NoMatch => SpecStep::NoMatch,
        SpecStep::Indeterminate => SpecStep::Indeterminate,
    }
}

/// A C1 control node: ESC followed by one character in `\x40..=\x5F`.
pub open spec fn spec_parse_c1_control(s: Seq<char>, i: int) -> SpecStep<NodeModel> {
    match spec_skip_delimiter(s, i, seq!['\x1B']) {
        SpecStep::Match(j, _) => match spec_capture_single(s, j, '\x40', '\x5F') {
            SpecStep::Match(j2, c) => SpecStep::Match(j2, NodeModel::C1Control(c)),
            SpecStep::NoMatch => SpecStep::NoMatch,
            SpecStep::Indeterminate => SpecStep::Indeterminate,
        },
        SpecStep::NoMatch => SpecStep::NoMatch,
        SpecStep::Indeterminate => SpecStep::Indeterminate,
    }
}

/// A control sequence node: CSI (ESC `[`), then an optional run of parameter
/// bytes (`\x30..=\x3F`), an optional run of intermediate bytes
/// (`\x20..=\x2F`), and a final byte (`\x40..=\x7E`).
pub open spec fn spec_parse_control_sequence(s: Seq<char>, i: int) -> SpecStep<NodeModel> {
    match spec_skip_delimiter(s, i, seq!['\x1B', '[']) {
        SpecStep::Match(j, _) => match spec_optional(spec_capture_group(s, j, '\x30', '\x3F'), j) {
            SpecStep::Match(j2, parameter_bytes) => match spec_optional(
                spec_capture_group(s, j2, '\x20', '\x2F'),
                j2,
            ) {
                SpecStep::Match(j3, intermediate_bytes) => match spec_capture_single(
                    s,
                    j3,
                    '\x40',
                    '\x7E',
                ) {
                    SpecStep::Match(j4, final_byte) => SpecStep::Match(
                        j4,
                        NodeModel::ControlSequence { parameter_bytes, intermediate_bytes, final_byte },
                    ),
                    SpecStep::NoMatch => SpecStep::NoMatch,
                    SpecStep::Indeterminate => SpecStep::Indeterminate,
                },
                SpecStep::NoMatch => SpecStep::NoMatch,
                SpecStep::Indeterminate => SpecStep::Indeterminate,
            },
            SpecStep::NoMatch => SpecStep::NoMatch,
            SpecStep::Indeterminate => SpecStep::Indeterminate,
        },
        SpecStep::NoMatch => SpecStep::NoMatch,
        SpecStep::Indeterminate => SpecStep::Indeterminate,
    }
}

/// An independent control function node: ESC followed by one character in
/// `\x60..=\x7E`.
pub open spec fn spec_parse_independent_control_function(s: Seq<char>, i: int) -> SpecStep<
    NodeModel,
> {
    match spec_skip_delimiter(s, i, seq!['\x1B']) {
        SpecStep::Match(j, _) => match spec_capture_single(s, j, '\x60', '\x7E') {
            SpecStep::Match(j2, c) => SpecStep::Match(j2, NodeModel::IndependentControlFunction(c)),
            SpecStep::NoMatch => SpecStep::NoMatch,
            SpecStep::Indeterminate => SpecStep::Indeterminate,
        },
        SpecStep::NoMatch => SpecStep::NoMatch,
        SpecStep::Indeterminate => SpecStep::Indeterminate,
    }
}

/// A control string node: ESC, one of the five opening characters, then the
/// character string up to its terminator.
pub open spec fn spec_parse_control_string(s: Seq<char>, i: int) -> SpecStep<NodeModel> {
    match spec_skip_delimiter(s, i, seq!['\x1B']) {
        SpecStep::Match(j, _) => if j >= s.len() {
            SpecStep::Indeterminate
        } else if !is_control_string_opening(s[j]) {
            SpecStep::NoMatch
        } else {
            match spec_capture_character_string(s, j + 1) {
                SpecStep::Match(j2, body) => SpecStep::Match(
                    j2,
                    NodeModel::ControlString { opening: s[j], character_string: body },
                ),
                SpecStep::NoMatch => SpecStep::NoMatch,
                SpecStep::Indeterminate => SpecStep::Indeterminate,
            }
        },
        SpecStep::NoMatch => SpecStep::NoMatch,
        SpecStep::Indeterminate => SpecStep::Indeterminate,
    }
}

/// A text node: a maximal nonempty run of non-control characters.
pub open spec fn spec_parse_text(s: Seq<char>, i: int) -> SpecStep<NodeModel> {
    match spec_capture_group_lazy(s, i) {
        SpecStep::Match(j, t) => SpecStep::Match(j, NodeModel::Text(t)),
        SpecStep::NoMatch => SpecStep::NoMatch,
        SpecStep::Indeterminate => SpecStep::Indeterminate,
    }
}

/// The fallback node: any single character.
pub open spec fn spec_parse_unknown(s: Seq<char>, i: int) -> SpecStep<NodeModel> {
    if i >= s.len() {
        SpecStep::Indeterminate
    } else {
        SpecStep::Match(i + 1, NodeModel::Unknown(s[i]))
    }
}

/// The whole grammar: ordered alternation over the node kinds, first match
/// wins, and running out of input inside any alternative wins over trying
/// the next one.
pub open spec fn spec_parse(s: Seq<char>, i: int) -> SpecParseResult {
    match spec_parse_control_string(s, i) {
        SpecStep::Match(j, n) => SpecParseResult::Match(j, n),
        SpecStep::Indeterminate => SpecParseResult::Indeterminate,
        SpecStep::NoMatch => match spec_parse_independent_control_function(s, i) {
            SpecStep::Match(j, n) => SpecParseResult::Match(j, n),
            SpecStep::Indeterminate => SpecParseResult::Indeterminate,
            SpecStep::NoMatch => match spec_parse_control_sequence(s, i) {
                SpecStep::Match(j, n) => SpecParseResult::Match(j, n),
                SpecStep::Indeterminate => SpecParseResult::Indeterminate,
                SpecStep::NoMatch => match spec_parse_c1_control(s, i) {
                    SpecStep::Match(j, n) => SpecParseResult::Match(j, n),
                    SpecStep::Indeterminate => SpecParseResult::Indeterminate,
                    SpecStep::NoMatch => match spec_parse_c0_control(s, i) {
                        SpecStep::Match(j, n) => SpecParseResult::Match(j, n),
                        SpecStep::Indeterminate => SpecParseResult::Indeterminate,
                        SpecStep::NoMatch => match spec_parse_text(s, i) {
                            SpecStep::Match(j, n) => SpecParseResult::Match(j, n),
                            SpecStep::Indeterminate => SpecParseResult::Indeterminate,
                            SpecStep::NoMatch => match spec_parse_unknown(s, i) {
                                SpecStep::Match(j, n) => SpecParseResult::Match(j, n),
                                _ => SpecParseResult::Indeterminate,
                            },
                        },
                    },
                },
            },
        },
    }
}

/// Relies on `String::push`: appends the given character to the end of the
/// string. vstd specifies other `String` methods but not this one.
pub assume_specification[ String::push ](s: &mut String, c: char)
    ensures
        final(s)@ == old(s)@.push(c),
;

impl Node {
    /// Expect the characters of `prefix` verbatim at position `i`.
    fn skip_delimiter(text: &Vec<char>, i: usize, prefix: &[char]) -> (r: TryIntermediateResult<
        (),
    >)
        requires
            i <= text@.len(),
        ensures
            match r {
                TryIntermediateResult::Match(j, _) => spec_skip_delimiter(
                    text@,
                    i as int,
                    prefix@,
                ) == SpecStep::Match(j as int, ()) && i <= j <= text@.len(),
                TryIntermediateResult::NoMatch => spec_skip_delimiter(text@, i as int, prefix@)
                    is NoMatch,
                TryIntermediateResult::Indeterminate => spec_skip_delimiter(
                    text@,
                    i as int,
                    prefix@,
                ) is Indeterminate,
            },
    {
        let ghost s = text@;
        let ghost p = prefix@;
        let tlen = text.len();
        let plen = prefix.len();
        let mut k: usize = 0;
        while k < plen && i + k < tlen && text[i + k] == prefix[k]
            invariant
                i <= text@.len(),
                k <= prefix@.len(),
                i + k <= text@.len(),
                tlen == text@.len(),
                plen == prefix@.len(),
                s == text@,
                p == prefix@,
                s.subrange(i as int, i + k) =~= p.take(k as int),
            decreases prefix@.len() - k,
        {
            k = k + 1;
            assert(s.subrange(i as int, i + k) =~= s.subrange(i as int, i + k - 1).push(
                s[i + k - 1],
            ));
            assert(p.take(k as int) =~= p.take(k - 1).push(p[k - 1]));
        }
        if k == plen {
            TryIntermediateResult::Match(i + k, ())
        } else if i + k == tlen {
            assert(spec_skip_delimiter(s, i as int, p) is Indeterminate);
            TryIntermediateResult::Indeterminate
        } else {
            // the characters diverge at offset k
            assert(s[i + k] != p[k as int]);
            assert(spec_skip_delimiter(s, i as int, p) is NoMatch) by {
                let n = if s.len() - i < p.len() {
                    s.len() - i as int
                } else {
                    p.len() as int
                };
                assert(k < n);
                assert(s.subrange(i as int, i + n)[k as int] == s[i + k]);
                assert(p.take(n)[k as int] == p[k as int]);
            }
            TryIntermediateResult::NoMatch
        }
    }

    /// Expect one character in the inclusive range `lo..=hi` at position `i`.
    fn capture_single_range(text: &Vec<char>, i: usize, lo: char, hi: char) -> (r:
        TryIntermediateResult<char>)
        requires
            i <= text@.len(),
        ensures
            match r {
                TryIntermediateResult::Match(j, c) => spec_capture_single(text@, i as int, lo, hi)
                    == SpecStep::Match(j as int, c) && i < j <= text@.len(),
                TryIntermediateResult::NoMatch => spec_capture_single(text@, i as int, lo, hi)
                    is NoMatch,
                TryIntermediateResult::Indeterminate => spec_capture_single(
                    text@,
                    i as int,
                    lo,
                    hi,
                ) is Indeterminate,
            },
    {
        if i >= text.len() {
            TryIntermediateResult::Indeterminate
        } else {
            let c = text[i];
            if lo <= c && c <= hi {
                TryIntermediateResult::Match(i + 1, c)
            } else {
                TryIntermediateResult::NoMatch
            }
        }
    }

    /// Capture a maximal nonempty run of characters in `lo..=hi`; the run
    /// being cut off by the end of the buffer is indeterminate.
    fn capture_group_range(text: &Vec<char>, i: usize, lo: char, hi: char) -> (r:
        TryIntermediateResult<String>)
        requires
            i <= text@.len(),
        ensures
            match r {
                TryIntermediateResult::Match(j, g) => spec_capture_group(text@, i as int, lo, hi)
                    == SpecStep::Match(j as int, g@) && i < j <= text@.len(),
                TryIntermediateResult::NoMatch => spec_capture_group(text@, i as int, lo, hi)
                    is NoMatch,
                TryIntermediateResult::Indeterminate => spec_capture_group(text@, i as int, lo, hi)
                    is Indeterminate,
            },
    {
        let ghost s = text@;
        if i >= text.len() {
            return TryIntermediateResult::Indeterminate;
        }
        let c0 = text[i];
        if !(lo <= c0 && c0 <= hi) {
            return TryIntermediateResult::NoMatch;
        }
        let mut j: usize = i;
        let mut g = String::new();
        while j < text.len() && lo <= text[j] && text[j] <= hi
            invariant
                i <= j <= text@.len(),
                s == text@,
                g@ =~= s.subrange(i as int, j as int),
                run_end(s, i as int, lo, hi) == run_end(s, j as int, lo, hi),
            decreases text@.len() - j,
        {
            g.push(text[j]);
            j = j + 1;
            assert(g@ =~= s.subrange(i as int, j as int));
        }
        if j == text.len() {
            TryIntermediateResult::Indeterminate
        } else {
            TryIntermediateResult::Match(j, g)
        }
    }

    /// Capture a maximal nonempty run of non-control characters, settling
    /// for what is there when the buffer ends.
    fn capture_group_lazy(text: &Vec<char>, i: usize) -> (r: TryIntermediateResult<String>)
        requires
            i <= text@.len(),
        ensures
            match r {
                TryIntermediateResult::Match(j, g) => spec_capture_group_lazy(text@, i as int)
                    == SpecStep::Match(j as int, g@) && i < j <= text@.len(),
                TryIntermediateResult::NoMatch => spec_capture_group_lazy(text@, i as int)
                    is NoMatch,
                TryIntermediateResult::Indeterminate => spec_capture_group_lazy(text@, i as int)
                    is Indeterminate,
            },
    {
        let ghost s = text@;
        if i >= text.len() {
            return TryIntermediateResult::Indeterminate;
        }
        if Self::is_control(text[i]) {
            return TryIntermediateResult::NoMatch;
        }
        let mut j: usize = i;
        let mut g = String::new();
        while j < text.len() && !Self::is_control(text[j])
            invariant
                i <= j <= text@.len(),
                s == text@,
                g@ =~= s.subrange(i as int, j as int),
                text_run_end(s, i as int) == text_run_end(s, j as int),
            decreases text@.len() - j,
        {
            g.push(text[j]);
            j = j + 1;
            assert(g@ =~= s.subrange(i as int, j as int));
        }
        TryIntermediateResult::Match(j, g)
    }

    /// Whether the character has the Unicode general category for control
    /// codes: `\x00..=\x1F` or `\x7F..=\x9F`.
    fn is_control(c: char) -> (r: bool)
        ensures
            r == is_control_char(c),
    {
        let v = c as u32;
        v <= 0x1F || (0x7F <= v && v <= 0x9F)
    }

    /// The body of a control string: every character up to a String
    /// Terminator (ESC `\`) or a BEL, whichever comes first. The terminator
    /// is consumed but not kept.
    fn capture_character_string(text: &Vec<char>, i: usize) -> (r: TryIntermediateResult<String>)
        requires
            i <= text@.len(),
        ensures
            match r {
                TryIntermediateResult::Match(j, g) => spec_capture_character_string(
                    text@,
                    i as int,
                ) == SpecStep::Match(j as int, g@) && i < j <= text@.len(),
                TryIntermediateResult::NoMatch => spec_capture_character_string(text@, i as int)
                    is NoMatch,
                TryIntermediateResult::Indeterminate => spec_capture_character_string(
                    text@,
                    i as int,
                ) is Indeterminate,
            },
    {
        let ghost s = text@;
        let mut j: usize = i;
        let mut g = String::new();
        proof {
            assert(ccs_prepend(g@, spec_capture_character_string(s, j as int))
                == spec_capture_character_string(s, i as int)) by {
                match spec_capture_character_string(s, j as int) {
                    SpecStep::Match(k, b) => {
                        assert(g@ + b =~= b);
                    },
                    _ => {},
                }
            }
        }
        loop
            invariant
                i <= j <= text@.len(),
                s == text@,
                g@ =~= s.subrange(i as int, j as int),
                ccs_prepend(g@, spec_capture_character_string(s, j as int))
                    == spec_capture_character_string(s, i as int),
            decreases text@.len() - j,
        {
            match Self::skip_delimiter(text, j, &['\x1B', '\x5C']) {
                TryIntermediateResult::Match(j2, _) => {
                    proof {
                        lemma_ccs_bounds(s, j as int);
                        assert(spec_capture_character_string(s, j as int) == SpecStep::<
                            Seq<char>,
                        >::Match(j2 as int, Seq::empty()));
                        assert(g@ + Seq::<char>::empty() =~= g@);
                    }
                    return TryIntermediateResult::Match(j2, g);
                },
                TryIntermediateResult::Indeterminate => {
                    return TryIntermediateResult::Indeterminate;
                },
                TryIntermediateResult::NoMatch => {},
            }
            match Self::skip_delimiter(text, j, &['\x07']) {
                TryIntermediateResult::Match(j2, _) => {
                    proof {
                        lemma_ccs_bounds(s, j as int);
                        assert(spec_capture_character_string(s, j as int) == SpecStep::<
                            Seq<char>,
                        >::Match(j2 as int, Seq::empty()));
                        assert(g@ + Seq::<char>::empty() =~= g@);
                    }
                    return TryIntermediateResult::Match(j2, g);
                },
                TryIntermediateResult::Indeterminate => {
                    return TryIntermediateResult::Indeterminate;
                },
                TryIntermediateResult::NoMatch => {},
            }
            if j >= text.len() {
                return TryIntermediateResult::Indeterminate;
            }
            let c = text[j];
            proof {
                let st = spec_capture_character_string(s, j + 1);
                assert(spec_capture_character_string(s, j as int) == ccs_prepend(
                    seq![s[j as int]],
                    st,
                ));
                match st {
                    SpecStep::Match(k, b) => {
                        assert(g@ + (seq![s[j as int]] + b) =~= g@.push(s[j as int]) + b);
                    },
                    _ => {},
                }
            }
            g.push(c);
            j = j + 1;
            assert(g@ =~= s.subrange(i as int, j as int));
        }
    }

    /// Parse a C0 control node: one character in `\x00..=\x1F`.
    fn parse_c0_control(text: &Vec<char>, i: usize) -> (r: TryIntermediateResult<Node>)
        requires
            i <= text@.len(),
        ensures
            step_reflects(r, spec_parse_c0_control(text@, i as int), i as int, text@.len() as int),
    {
        match Self::capture_single_range(text, i, '\x00', '\x1F') {
            TryIntermediateResult::Match(j, c) => TryIntermediateResult::Match(
                j,
                Node::C0Control(c),
            ),
            TryIntermediateResult::NoMatch => TryIntermediateResult::NoMatch,
            TryIntermediateResult::Indeterminate => TryIntermediateResult::Indeterminate,
        }
    }

    /// Parse a C1 control node: ESC followed by one character in
    /// `\x40..=\x5F`.
    fn parse_c1_control(text: &Vec<char>, i: usize) -> (r: TryIntermediateResult<Node>)
        requires
            i <= text@.len(),
        ensures
            step_reflects(r, spec_parse_c1_control(text@, i as int), i as int, text@.len() as int),
    {
        match Self::skip_delimiter(text, i, &['\x1B']) {
            TryIntermediateResult::Match(j, _) => {
                match Self::capture_single_range(text, j, '\x40', '\x5F') {
                    TryIntermediateResult::Match(j2, c) => TryIntermediateResult::Match(
                        j2,
                        Node::C1Control(c),
                    ),
                    TryIntermediateResult::NoMatch => TryIntermediateResult::NoMatch,
                    TryIntermediateResult::Indeterminate => TryIntermediateResult::Indeterminate,
                }
            },
            TryIntermediateResult::NoMatch => TryIntermediateResult::NoMatch,
            TryIntermediateResult::Indeterminate => TryIntermediateResult::Indeterminate,
        }
    }

    /// Parse a control sequence node: CSI, optional parameter bytes, optional
    /// intermediate bytes, and a final byte.
    fn parse_control_sequence(text: &Vec<char>, i: usize) -> (r: TryIntermediateResult<Node>)
        requires
            i <= text@.len(),
        ensures
            step_reflects(r, spec_parse_control_sequence(text@, i as int), i as int, text@.len() as int),
    {
        let j = match Self::skip_delimiter(text, i, &['\x1B', '[']) {
            TryIntermediateResult::Match(j, _) => j,
            TryIntermediateResult::NoMatch => {
                return TryIntermediateResult::NoMatch;
            },
            TryIntermediateResult::Indeterminate => {
                return TryIntermediateResult::Indeterminate;
            },
        };
        let (j2, parameter_bytes) = match Self::capture_group_range(
            text,
            j,
            '\x30',
            '\x3F',
        ).optional(j) {
            TryIntermediateResult::Match(k, g) => (k, g),
            _ => {
                return TryIntermediateResult::Indeterminate;
            },
        };
        let (j3, intermediate_bytes) = match Self::capture_group_range(
            text,
            j2,
            '\x20',
            '\x2F',
        ).optional(j2) {
            TryIntermediateResult::Match(k, g) => (k, g),
            _ => {
                return TryIntermediateResult::Indeterminate;
            },
        };
        match Self::capture_single_range(text, j3, '\x40', '\x7E') {
            TryIntermediateResult::Match(j4, final_byte) => TryIntermediateResult::Match(
                j4,
                Node::ControlSequence { parameter_bytes, intermediate_bytes, final_byte },
            ),
            TryIntermediateResult::NoMatch => TryIntermediateResult::NoMatch,
            TryIntermediateResult::Indeterminate => TryIntermediateResult::Indeterminate,
        }
    }

    /// Parse an independent control function node: ESC followed by one
    /// character in `\x60..=\x7E`.
    fn parse_independent_control_function(text: &Vec<char>, i: usize) -> (r:
        TryIntermediateResult<Node>)
        requires
            i <= text@.len(),
        ensures
            step_reflects(
                r,
                spec_parse_independent_control_function(text@, i as int),
                i as int,
                text@.len() as int,
            ),
    {
        match Self::skip_delimiter(text, i, &['\x1B']) {
            TryIntermediateResult::Match(j, _) => {
                match Self::capture_single_range(text, j, '\x60', '\x7E') {
                    TryIntermediateResult::Match(j2, c) => TryIntermediateResult::Match(
                        j2,
                        Node::IndependentControlFunction(c),
                    ),
                    TryIntermediateResult::NoMatch => TryIntermediateResult::NoMatch,
                    TryIntermediateResult::Indeterminate => TryIntermediateResult::Indeterminate,
                }
            },
            TryIntermediateResult::NoMatch => TryIntermediateResult::NoMatch,
            TryIntermediateResult::Indeterminate => TryIntermediateResult::Indeterminate,
        }
    }

    /// Parse a control string node: ESC, an opening character (APC, DCS,
    /// OSC, PM or SOS), then the character string up to its terminator.
    fn parse_control_string(text: &Vec<char>, i: usize) -> (r: TryIntermediateResult<Node>)
        requires
            i <= text@.len(),
        ensures
            step_reflects(r, spec_parse_control_string(text@, i as int), i as int, text@.len() as int),
    {
        let j = match Self::skip_delimiter(text, i, &['\x1B']) {
            TryIntermediateResult::Match(j, _) => j,
            TryIntermediateResult::NoMatch => {
                return TryIntermediateResult::NoMatch;
            },
            TryIntermediateResult::Indeterminate => {
                return TryIntermediateResult::Indeterminate;
            },
        };
        if j >= text.len() {
            return TryIntermediateResult::Indeterminate;
        }
        let opening = text[j];
        if !(opening == '\x5F' || opening == '\x50' || opening == '\x5D' || opening == '\x5E'
            || opening == '\x58') {
            return TryIntermediateResult::NoMatch;
        }
        match Self::capture_character_string(text, j + 1) {
            TryIntermediateResult::Match(j2, character_string) => TryIntermediateResult::Match(
                j2,
                Node::ControlString { opening, character_string },
            ),
            TryIntermediateResult::NoMatch => TryIntermediateResult::NoMatch,
            TryIntermediateResult::Indeterminate => TryIntermediateResult::Indeterminate,
        }
    }

    /// Parse a text node: a maximal nonempty run of non-control characters.
    fn parse_text(text: &Vec<char>, i: usize) -> (r: TryIntermediateResult<Node>)
        requires
            i <= text@.len(),
        ensures
            step_reflects(r, spec_parse_text(text@, i as int), i as int, text@.len() as int),
    {
        match Self::capture_group_lazy(text, i) {
            TryIntermediateResult::Match(j, g) => TryIntermediateResult::Match(j, Node::Text(g)),
            TryIntermediateResult::NoMatch => TryIntermediateResult::NoMatch,
            TryIntermediateResult::Indeterminate => TryIntermediateResult::Indeterminate,
        }
    }

    /// Parse the fallback node: any single character.
    fn parse_unknown(text: &Vec<char>, i: usize) -> (r: TryIntermediateResult<Node>)
        requires
            i <= text@.len(),
        ensures
            step_reflects(r, spec_parse_unknown(text@, i as int), i as int, text@.len() as int),
            !(r is NoMatch),
    {
        if i >= text.len() {
            TryIntermediateResult::Indeterminate
        } else {
            TryIntermediateResult::Match(i + 1, Node::Unknown(text[i]))
        }
    }

    /// Classify the next unit of `text` starting at position `from`.
    ///
    /// The alternatives share prefixes (several start with ESC), so they are
    /// tried in a fixed priority order and the first match wins; running out
    /// of input inside any alternative reports [`NodeParseResult::Indeterminate`]
    /// rather than falling through to a shorter guess.
    pub fn parse(text: &Vec<char>, from: usize) -> (r: NodeParseResult)
        requires
            from <= text@.len(),
        ensures
            r@ == spec_parse(text@, from as int),
            r matches NodeParseResult::Match(j, _) ==> from < j <= text@.len(),
    {
        match Self::parse_control_string(text, from) {
            TryIntermediateResult::Match(j, n) => {
                return NodeParseResult::Match(j, n);
            },
            TryIntermediateResult::Indeterminate => {
                return NodeParseResult::Indeterminate;
            },
            TryIntermediateResult::NoMatch => {},
        }
        match Self::parse_independent_control_function(text, from) {
            TryIntermediateResult::Match(j, n) => {
                return NodeParseResult::Match(j, n);
            },
            TryIntermediateResult::Indeterminate => {
                return NodeParseResult::Indeterminate;
            },
            TryIntermediateResult::NoMatch => {},
        }
        match Self::parse_control_sequence(text, from) {
            TryIntermediateResult::Match(j, n) => {
                return NodeParseResult::Match(j, n);
            },
            TryIntermediateResult::Indeterminate => {
                return NodeParseResult::Indeterminate;
            },
            TryIntermediateResult::NoMatch => {},
        }
        match Self::parse_c1_control(text, from) {
            TryIntermediateResult::Match(j, n) => {
                return NodeParseResult::Match(j, n);
            },
            TryIntermediateResult::Indeterminate => {
                return NodeParseResult::Indeterminate;
            },
            TryIntermediateResult::NoMatch => {},
        }
        match Self::parse_c0_control(text, from) {
            TryIntermediateResult::Match(j, n) => {
                return NodeParseResult::Match(j, n);
            },
            TryIntermediateResult::Indeterminate => {
                return NodeParseResult::Indeterminate;
            },
            TryIntermediateResult::NoMatch => {},
        }
        match Self::parse_text(text, from) {
            TryIntermediateResult::Match(j, n) => {
                return NodeParseResult::Match(j, n);
            },
            TryIntermediateResult::Indeterminate => {
                return NodeParseResult::Indeterminate;
            },
            TryIntermediateResult::NoMatch => {},
        }
        match Self::parse_unknown(text, from) {
            TryIntermediateResult::Match(j, n) => NodeParseResult::Match(j, n),
            TryIntermediateResult::Indeterminate => NodeParseResult::Indeterminate,
            TryIntermediateResult::NoMatch => {
                proof {
                    assert(false);
                }
                NodeParseResult::Indeterminate
            },
        }
    }
}

/// Prefix the captured body of a control-string outcome with `pre`.
pub open spec fn ccs_prepend(pre: Seq<char>, st: SpecStep<Seq<char>>) -> SpecStep<Seq<char>> {
    match st {
        SpecStep::Match(k, b) => SpecStep::Match(k, pre + b),
        SpecStep::NoMatch => SpecStep::NoMatch,
        SpecStep::Indeterminate => SpecStep::Indeterminate,
    }
}

/// A matched control-string body always ends past its starting position and
/// within the buffer.
proof fn lemma_ccs_bounds(s: Seq<char>, i: int)
    requires
        0 <= i <= s.len(),
    ensures
        spec_capture_character_string(s, i) matches SpecStep::Match(k, _) ==> i < k <= s.len(),
    decreases s.len() - i,
{
    if i < s.len() {
        lemma_ccs_bounds(s, i + 1);
    }
}

/// The end of a bounded run never leaves the buffer and never precedes its
/// start.
proof fn lemma_run_end_bounds(s: Seq<char>, i: int, lo: char, hi: char)
    requires
        0 <= i <= s.len(),
    ensures
        i <= run_end(s, i, lo, hi) <= s.len(),
    decreases s.len() - i,
{
    if i < s.len() && lo <= s[i] && s[i] <= hi {
        lemma_run_end_bounds(s, i + 1, lo, hi);
    }
}

/// The end of a text run never leaves the buffer and never precedes its
/// start.
proof fn lemma_text_run_end_bounds(s: Seq<char>, i: int)
    requires
        0 <= i <= s.len(),
    ensures
        i <= text_run_end(s, i) <= s.len(),
    decreases s.len() - i,
{
    if i < s.len() && !is_control_char(s[i]) {
        lemma_text_run_end_bounds(s, i + 1);
    }
}

/// A successful parse always consumes at least one character and never
/// advances past the end of the buffer.
pub proof fn lemma_parse_bounds(s: Seq<char>, i: int)
    requires
        0 <= i <= s.len(),
    ensures
        spec_parse(s, i) matches SpecParseResult::Match(k, _) ==> i < k <= s.len(),
{
    if spec_parse(s, i) is Match {
        match spec_parse_control_string(s, i) {
            SpecStep::Match(k, _) => {
                lemma_ccs_bounds(s, i + 2);
            },
            _ => {
                match spec_parse_control_sequence(s, i) {
                    SpecStep::Match(k, _) => {
                        lemma_run_end_bounds(s, i + 2, '\x30', '\x3F');
                        let j2 = match spec_optional(
                            spec_capture_group(s, i + 2, '\x30', '\x3F'),
                            i + 2,
                        ) {
                            SpecStep::Match(j2, _) => j2,
                            _ => i + 2,
                        };
                        lemma_run_end_bounds(s, j2, '\x20', '\x2F');
                    },
                    _ => {
                        match spec_parse_text(s, i) {
                            SpecStep::Match(k, _) => {
                                lemma_text_run_end_bounds(s, i + 1);
                            },
                            _ => {},
                        }
                    },
                }
            },
        }
    }
}

/// Appending input preserves a delimiter's full match and its definite
/// mismatch; only "ran out of input" can change.
proof fn lemma_skip_ext(s: Seq<char>, t: Seq<char>, i: int, p: Seq<char>)
    requires
        0 <= i <= s.len(),
    ensures
        spec_skip_delimiter(s, i, p) matches SpecStep::Match(j, _) ==> spec_skip_delimiter(
            s + t,
            i,
            p,
        ) == SpecStep::<()>::Match(j, ()),
        spec_skip_delimiter(s, i, p) is NoMatch ==> spec_skip_delimiter(s + t, i, p) is NoMatch,
{
    let u = s + t;
    let n = if s.len() - i < p.len() {
        s.len() - i
    } else {
        p.len() as int
    };
    let n2 = if u.len() - i < p.len() {
        u.len() - i
    } else {
        p.len() as int
    };
    match spec_skip_delimiter(s, i, p) {
        SpecStep::Match(j, _) => {
            assert(u.subrange(i, i + n2) =~= s.subrange(i, i + n));
        },
        SpecStep::NoMatch => {
            if u.subrange(i, i + n2) =~= p.take(n2) {
                assert(s.subrange(i, i + n) =~= p.take(n)) by {
                    assert forall|q: int| 0 <= q < n implies s.subrange(i, i + n)[q] == p.take(n)[q]
                        by {
                        assert(u.subrange(i, i + n2)[q] == p.take(n2)[q]);
                        assert(u.subrange(i, i + n2)[q] == u[i + q]);
                        assert(u[i + q] == s[i + q]);
                    }
                }
                assert(false);
            }
        },
        SpecStep::Indeterminate => {},
    }
}

/// Appending input preserves a single-character capture and its definite
/// mismatch.
proof fn lemma_single_ext(s: Seq<char>, t: Seq<char>, i: int, lo: char, hi: char)
    requires
        0 <= i <= s.len(),
    ensures
        spec_capture_single(s, i, lo, hi) matches SpecStep::Match(j, c) ==> spec_capture_single(
            s + t,
            i,
            lo,
            hi,
        ) == SpecStep::Match(j, c),
        spec_capture_single(s, i, lo, hi) is NoMatch ==> spec_capture_single(s + t, i, lo, hi)
            is NoMatch,
{
}

/// A bounded run that ended on a character (not on the end of the buffer)
/// ends at the same place in any extension.
proof fn lemma_run_end_ext(s: Seq<char>, t: Seq<char>, i: int, lo: char, hi: char)
    requires
        0 <= i <= s.len(),
        run_end(s, i, lo, hi) < s.len(),
    ensures
        run_end(s + t, i, lo, hi) == run_end(s, i, lo, hi),
    decreases s.len() - i,
{
    lemma_run_end_bounds(s, i, lo, hi);
    if i < s.len() && lo <= s[i] && s[i] <= hi {
        lemma_run_end_ext(s, t, i + 1, lo, hi);
    }
}

/// Appending input preserves a group capture that ended on a character, and
/// preserves its definite mismatch.
proof fn lemma_group_ext(s: Seq<char>, t: Seq<char>, i: int, lo: char, hi: char)
    requires
        0 <= i <= s.len(),
    ensures
        spec_capture_group(s, i, lo, hi) matches SpecStep::Match(j, g) ==> spec_capture_group(
            s + t,
            i,
            lo,
            hi,
        ) == SpecStep::Match(j, g),
        spec_capture_group(s, i, lo, hi) is NoMatch ==> spec_capture_group(s + t, i, lo, hi)
            is NoMatch,
{
    match spec_capture_group(s, i, lo, hi) {
        SpecStep::Match(j, g) => {
            lemma_run_end_bounds(s, i, lo, hi);
            lemma_run_end_ext(s, t, i, lo, hi);
            assert((s + t).subrange(i, j) =~= s.subrange(i, j));
        },
        _ => {},
    }
}

/// A text run that ended on a control character (not on the end of the
/// buffer) ends at the same place in any extension.
proof fn lemma_text_run_end_ext(s: Seq<char>, t: Seq<char>, i: int)
    requires
        0 <= i <= s.len(),
        text_run_end(s, i) < s.len(),
    ensures
        text_run_end(s + t, i) == text_run_end(s, i),
    decreases s.len() - i,
{
    lemma_text_run_end_bounds(s, i);
    if i < s.len() && !is_control_char(s[i]) {
        lemma_text_run_end_ext(s, t, i + 1);
    }
}

/// Appending input preserves a text capture that stopped at a control
/// character, and preserves its definite mismatch.
proof fn lemma_lazy_ext(s: Seq<char>, t: Seq<char>, i: int)
    requires
        0 <= i <= s.len(),
    ensures
        spec_capture_group_lazy(s, i) matches SpecStep::Match(j, g) ==> (j < s.len()
            ==> spec_capture_group_lazy(s + t, i) == SpecStep::Match(j, g)),
        spec_capture_group_lazy(s, i) is NoMatch ==> spec_capture_group_lazy(s + t, i) is NoMatch,
{
    match spec_capture_group_lazy(s, i) {
        SpecStep::Match(j, g) => {
            if j < s.len() {
                lemma_text_run_end_bounds(s, i);
                lemma_text_run_end_ext(s, t, i);
                assert((s + t).subrange(i, j) =~= s.subrange(i, j));
            }
        },
        _ => {},
    }
}

/// A control-string body never reports a definite mismatch: it either finds
/// its terminator or needs more input.
proof fn lemma_ccs_never_nomatch(s: Seq<char>, i: int)
    requires
        0 <= i <= s.len(),
    ensures
        !(spec_capture_character_string(s, i) is NoMatch),
    decreases s.len() - i,
{
    match spec_skip_delimiter(s, i, seq!['\x1B', '\x5C']) {
        SpecStep::NoMatch => {
            match spec_skip_delimiter(s, i, seq!['\x07']) {
                SpecStep::NoMatch => {
                    if i < s.len() {
                        lemma_ccs_never_nomatch(s, i + 1);
                    }
                },
                _ => {},
            }
        },
        _ => {},
    }
}

/// Appending input preserves a matched control-string body.
proof fn lemma_ccs_ext(s: Seq<char>, t: Seq<char>, i: int)
    requires
        0 <= i <= s.len(),
    ensures
        spec_capture_character_string(s, i) matches SpecStep::Match(k, b)
            ==> spec_capture_character_string(s + t, i) == SpecStep::Match(k, b),
    decreases s.len() - i,
{
    lemma_skip_ext(s, t, i, seq!['\x1B', '\x5C']);
    lemma_skip_ext(s, t, i, seq!['\x07']);
    match spec_skip_delimiter(s, i, seq!['\x1B', '\x5C']) {
        SpecStep::NoMatch => {
            match spec_skip_delimiter(s, i, seq!['\x07']) {
                SpecStep::NoMatch => {
                    if i < s.len() {
                        lemma_ccs_ext(s, t, i + 1);
                        assert((s + t)[i] == s[i]);
                    }
                },
                _ => {},
            }
        },
        _ => {},
    }
}

/// Appending input preserves a matched control-string node and its definite
/// mismatch.
proof fn lemma_cs_ext(s: Seq<char>, t: Seq<char>, i: int)
    requires
        0 <= i <= s.len(),
    ensures
        spec_parse_control_string(s, i) matches SpecStep::Match(k, n)
            ==> spec_parse_control_string(s + t, i) == SpecStep::Match(k, n),
        spec_parse_control_string(s, i) is NoMatch ==> spec_parse_control_string(s + t, i)
            is NoMatch,
{
    lemma_skip_ext(s, t, i, seq!['\x1B']);
    match spec_skip_delimiter(s, i, seq!['\x1B']) {
        SpecStep::Match(j, _) => {
            if j < s.len() {
                assert((s + t)[j] == s[j]);
                if is_control_string_opening(s[j]) {
                    lemma_ccs_ext(s, t, j + 1);
                    lemma_ccs_never_nomatch(s, j + 1);
                }
            }
        },
        _ => {},
    }
}

/// Appending input preserves a matched independent-control-function node and
/// its definite mismatch.
proof fn lemma_icf_ext(s: Seq<char>, t: Seq<char>, i: int)
    requires
        0 <= i <= s.len(),
    ensures
        spec_parse_independent_control_function(s, i) matches SpecStep::Match(k, n)
            ==> spec_parse_independent_control_function(s + t, i) == SpecStep::Match(k, n),
        spec_parse_independent_control_function(s, i) is NoMatch
            ==> spec_parse_independent_control_function(s + t, i) is NoMatch,
{
    lemma_skip_ext(s, t, i, seq!['\x1B']);
    match spec_skip_delimiter(s, i, seq!['\x1B']) {
        SpecStep::Match(j, _) => {
            lemma_single_ext(s, t, j, '\x60', '\x7E');
        },
        _ => {},
    }
}

/// Appending input preserves a matched control-sequence node and its
/// definite mismatch.
proof fn lemma_csi_ext(s: Seq<char>, t: Seq<char>, i: int)
    requires
        0 <= i <= s.len(),
    ensures
        spec_parse_control_sequence(s, i) matches SpecStep::Match(k, n)
            ==> spec_parse_control_sequence(s + t, i) == SpecStep::Match(k, n),
        spec_parse_control_sequence(s, i) is NoMatch ==> spec_parse_control_sequence(s + t, i)
            is NoMatch,
{
    lemma_skip_ext(s, t, i, seq!['\x1B', '[']);
    match spec_skip_delimiter(s, i, seq!['\x1B', '[']) {
        SpecStep::Match(j, _) => {
            lemma_group_ext(s, t, j, '\x30', '\x3F');
            lemma_run_end_bounds(s, j, '\x30', '\x3F');
            match spec_optional(spec_capture_group(s, j, '\x30', '\x3F'), j) {
                SpecStep::Match(j2, _) => {
                    lemma_group_ext(s, t, j2, '\x20', '\x2F');
                    lemma_run_end_bounds(s, j2, '\x20', '\x2F');
                    match spec_optional(spec_capture_group(s, j2, '\x20', '\x2F'), j2) {
                        SpecStep::Match(j3, _) => {
                            lemma_single_ext(s, t, j3, '\x40', '\x7E');
                        },
                        _ => {},
                    }
                },
                _ => {},
            }
        },
        _ => {},
    }
}

/// Appending input preserves a matched C1 control node and its definite
/// mismatch.
proof fn lemma_c1_ext(s: Seq<char>, t: Seq<char>, i: int)
    requires
        0 <= i <= s.len(),
    ensures
        spec_parse_c1_control(s, i) matches SpecStep::Match(k, n) ==> spec_parse_c1_control(
            s + t,
            i,
        ) == SpecStep::Match(k, n),
        spec_parse_c1_control(s, i) is NoMatch ==> spec_parse_c1_control(s + t, i) is NoMatch,
{
    lemma_skip_ext(s, t, i, seq!['\x1B']);
    match spec_skip_delimiter(s, i, seq!['\x1B']) {
        SpecStep::Match(j, _) => {
            lemma_single_ext(s, t, j, '\x40', '\x5F');
        },
        _ => {},
    }
}

/// A sub-parser outcome with its match position moved right by `d`.
pub open spec fn step_shift<T>(st: SpecStep<T>, d: int) -> SpecStep<T> {
    match st {
        SpecStep::Match(j, v) => SpecStep::Match(j + d, v),
        SpecStep::NoMatch => SpecStep::NoMatch,
        SpecStep::Indeterminate => SpecStep::Indeterminate,
    }
}

/// A parse outcome with its match position moved right by `d`.
pub open spec fn parse_result_shift(r: SpecParseResult, d: int) -> SpecParseResult {
    match r {
        SpecParseResult::Match(k, n) => SpecParseResult::Match(k + d, n),
        SpecParseResult::Indeterminate => SpecParseResult::Indeterminate,
    }
}

/// Expecting a delimiter at position `d + i` of a buffer is expecting it at
/// position `i` of the buffer's tail from `d`.
proof fn lemma_skip_shift(s: Seq<char>, d: int, i: int, p: Seq<char>)
    requires
        0 <= d,
        0 <= i,
        d + i <= s.len(),
    ensures
        spec_skip_delimiter(s, d + i, p) == step_shift(spec_skip_delimiter(s.skip(d), i, p), d),
{
    let u = s.skip(d);
    let n = if s.len() - (d + i) < p.len() {
        s.len() - (d + i)
    } else {
        p.len() as int
    };
    assert(u.len() == s.len() - d);
    assert(s.subrange(d + i, d + i + n) =~= u.subrange(i, i + n));
}

/// Capturing one ranged character shifts the same way.
proof fn lemma_single_shift(s: Seq<char>, d: int, i: int, lo: char, hi: char)
    requires
        0 <= d,
        0 <= i,
        d + i <= s.len(),
    ensures
        spec_capture_single(s, d + i, lo, hi) == step_shift(
            spec_capture_single(s.skip(d), i, lo, hi),
            d,
        ),
{
}

/// A bounded run shifts the same way.
proof fn lemma_run_end_shift(s: Seq<char>, d: int, i: int, lo: char, hi: char)
    requires
        0 <= d,
        0 <= i,
        d + i <= s.len(),
    ensures
        run_end(s, d + i, lo, hi) == d + run_end(s.skip(d), i, lo, hi),
    decreases s.len() - d - i,
{
    let u = s.skip(d);
    if d + i < s.len() && lo <= s[d + i] && s[d + i] <= hi {
        lemma_run_end_shift(s, d, i + 1, lo, hi);
    }
}

/// A group capture shifts the same way.
proof fn lemma_group_shift(s: Seq<char>, d: int, i: int, lo: char, hi: char)
    requires
        0 <= d,
        0 <= i,
        d + i <= s.len(),
    ensures
        spec_capture_group(s, d + i, lo, hi) == step_shift(
            spec_capture_group(s.skip(d), i, lo, hi),
            d,
        ),
{
    let u = s.skip(d);
    if d + i < s.len() && lo <= s[d + i] && s[d + i] <= hi {
        lemma_run_end_shift(s, d, i, lo, hi);
        lemma_run_end_bounds(u, i, lo, hi);
        let j = run_end(u, i, lo, hi);
        assert(s.subrange(d + i, d + j) =~= u.subrange(i, j));
    }
}

/// A text run shifts the same way.
proof fn lemma_text_run_end_shift(s: Seq<char>, d: int, i: int)
    requires
        0 <= d,
        0 <= i,
        d + i <= s.len(),
    ensures
        text_run_end(s, d + i) == d + text_run_end(s.skip(d), i),
    decreases s.len() - d - i,
{
    if d + i < s.len() && !is_control_char(s[d + i]) {
        lemma_text_run_end_shift(s, d, i + 1);
    }
}

/// A text capture shifts the same way.
proof fn lemma_lazy_shift(s: Seq<char>, d: int, i: int)
    requires
        0 <= d,
        0 <= i,
        d + i <= s.len(),
    ensures
        spec_capture_group_lazy(s, d + i) == step_shift(spec_capture_group_lazy(s.skip(d), i), d),
{
    let u = s.skip(d);
    if d + i < s.len() && !is_control_char(s[d + i]) {
        lemma_text_run_end_shift(s, d, i);
        lemma_text_run_end_bounds(u, i);
        let j = text_run_end(u, i);
        assert(s.subrange(d + i, d + j) =~= u.subrange(i, j));
    }
}

/// A control-string body shifts the same way.
proof fn lemma_ccs_shift(s: Seq<char>, d: int, i: int)
    requires
        0 <= d,
        0 <= i,
        d + i <= s.len(),
    ensures
        spec_capture_character_string(s, d + i) == step_shift(
            spec_capture_character_string(s.skip(d), i),
            d,
        ),
    decreases s.len() - d - i,
{
    let u = s.skip(d);
    lemma_skip_shift(s, d, i, seq!['\x1B', '\x5C']);
    lemma_skip_shift(s, d, i, seq!['\x07']);
    match spec_skip_delimiter(s, d + i, seq!['\x1B', '\x5C']) {
        SpecStep::NoMatch => {
            match spec_skip_delimiter(s, d + i, seq!['\x07']) {
                SpecStep::NoMatch => {
                    if d + i < s.len() {
                        lemma_ccs_shift(s, d, i + 1);
                        assert(s[d + i] == u[i]);
                    }
                },
                _ => {},
            }
        },
        _ => {},
    }
}

/// Every node alternative, and therefore the whole grammar, parses the tail
/// of a buffer exactly as it parses the buffer from the same position: the
/// classified node is the same and the match position only moves by the
/// offset.
pub proof fn lemma_parse_shift(s: Seq<char>, d: int, i: int)
    requires
        0 <= d,
        0 <= i,
        d + i <= s.len(),
    ensures
        spec_parse(s, d + i) == parse_result_shift(spec_parse(s.skip(d), i), d),
{
    let u = s.skip(d);
    lemma_skip_shift(s, d, i, seq!['\x1B']);
    lemma_skip_shift(s, d, i, seq!['\x1B', '[']);
    lemma_single_shift(s, d, i, '\x00', '\x1F');
    lemma_lazy_shift(s, d, i);
    // the control-string alternative
    match spec_skip_delimiter(s, d + i, seq!['\x1B']) {
        SpecStep::Match(j, _) => {
            // j == d + i + 1; the opening character and everything after it
            if j < s.len() {
                assert(s[j] == u[i + 1]);
                lemma_ccs_shift(s, d, i + 2);
                lemma_single_shift(s, d, i + 1, '\x40', '\x5F');
                lemma_single_shift(s, d, i + 1, '\x60', '\x7E');
            }
        },
        _ => {},
    }
    // the control-sequence alternative
    match spec_skip_delimiter(s, d + i, seq!['\x1B', '[']) {
        SpecStep::Match(j, _) => {
            lemma_group_shift(s, d, i + 2, '\x30', '\x3F');
            match spec_optional(spec_capture_group(u, i + 2, '\x30', '\x3F'), i + 2) {
                SpecStep::Match(j2, _) => {
                    lemma_run_end_bounds(u, i + 2, '\x30', '\x3F');
                    lemma_group_shift(s, d, j2, '\x20', '\x2F');
                    match spec_optional(spec_capture_group(u, j2, '\x20', '\x2F'), j2) {
                        SpecStep::Match(j3, _) => {
                            lemma_run_end_bounds(u, j2, '\x20', '\x2F');
                            lemma_single_shift(s, d, j3, '\x40', '\x7E');
                        },
                        _ => {},
                    }
                },
                _ => {},
            }
        },
        _ => {},
    }
}

/// A match that did not merely run out of input is stable under more input
/// arriving: once the parser has classified a node — any non-text node, or a
/// text node that stopped at a control character rather than at the end of
/// the buffer — appending further input yields the very same node, consuming
/// the very same characters. This is what makes parsing resumable across
/// arbitrary chunk boundaries.
pub proof fn lemma_parse_match_extension(s: Seq<char>, t: Seq<char>, i: int)
    requires
        0 <= i <= s.len(),
        spec_parse(s, i) matches SpecParseResult::Match(k, node) && (k < s.len() || !(node
            is Text)),
    ensures
        spec_parse(s + t, i) == spec_parse(s, i),
{
    lemma_cs_ext(s, t, i);
    lemma_icf_ext(s, t, i);
    lemma_csi_ext(s, t, i);
    lemma_c1_ext(s, t, i);
    lemma_single_ext(s, t, i, '\x00', '\x1F');
    lemma_lazy_ext(s, t, i);
    match spec_parse(s, i) {
        SpecParseResult::Match(k, node) => {
            if node is Text {
                assert(k < s.len());
            }
        },
        _ => {},
    }
}

/// How an executable sub-parser outcome reflects its model: a match carries
/// the same new position (which advanced, and stays inside the buffer) and a
/// node whose view is the modelled node.
pub open spec fn step_reflects(
    r: TryIntermediateResult<Node>,
    st: SpecStep<NodeModel>,
    from: int,
    len: int,
) -> bool {
    match r {
        TryIntermediateResult::Match(j, n) => st == SpecStep::Match(j as int, n@) && from < j
            <= len,
        TryIntermediateResult::NoMatch => st is NoMatch,
        TryIntermediateResult::Indeterminate => st is Indeterminate,
    }
}

} // verus!
