//! Rule-based decision extraction.
//!
//! Decisions are lifted from turns by cue phrases: no model and no network, and openly
//! approximate.

use vstd::prelude::*;

use crate::model::{F32Bits, MessageKind, Turn, TurnV};
use crate::text;
use crate::text::CharClass;

verus! {

/// The number of cue phrases.
pub const CUES: usize = 16;

/// The cue phrases that mark a decision, in lower case.
pub open spec fn cue_at(i: int) -> Seq<char> {
    if i == 0 {
        "we'll use"@
    } else if i == 1 {
        "let's use"@
    } else if i == 2 {
        "i'll use"@
    } else if i == 3 {
        "decided to"@
    } else if i == 4 {
        "decision:"@
    } else if i == 5 {
        "go with"@
    } else if i == 6 {
        "going with"@
    } else if i == 7 {
        "switch to"@
    } else if i == 8 {
        "switching to"@
    } else if i == 9 {
        "instead of"@
    } else if i == 10 {
        "chose "@
    } else if i == 11 {
        "we should use"@
    } else if i == 12 {
        "rejected"@
    } else if i == 13 {
        "trade-off"@
    } else if i == 14 {
        "tradeoff"@
    } else {
        "the plan is"@
    }
}

fn cue(i: usize) -> (r: &'static str)
    ensures
        r@ == cue_at(i as int),
{
    match i {
        0 => "we'll use",
        1 => "let's use",
        2 => "i'll use",
        3 => "decided to",
        4 => "decision:",
        5 => "go with",
        6 => "going with",
        7 => "switch to",
        8 => "switching to",
        9 => "instead of",
        10 => "chose ",
        11 => "we should use",
        12 => "rejected",
        13 => "trade-off",
        14 => "tradeoff",
        _ => "the plan is",
    }
}

/// The number of noise markers.
pub const NOISE_MARKERS: usize = 6;

/// What agents wrap around commands and notices that carry no memory.
pub open spec fn noise_marker_at(i: int) -> Seq<char> {
    if i == 0 {
        "<command-name>"@
    } else if i == 1 {
        "<command-message>"@
    } else if i == 2 {
        "<command-args>"@
    } else if i == 3 {
        "<local-command-stdout>"@
    } else if i == 4 {
        "<local-command-stderr>"@
    } else {
        "[Request interrupted"@
    }
}

fn noise_marker(i: usize) -> (r: &'static str)
    ensures
        r@ == noise_marker_at(i as int),
{
    match i {
        0 => "<command-name>",
        1 => "<command-message>",
        2 => "<command-args>",
        3 => "<local-command-stdout>",
        4 => "<local-command-stderr>",
        _ => "[Request interrupted",
    }
}

/// The fewest words of a decision.
pub const MIN_DECISION_WORDS: usize = 5;

/// The most characters of a decision.
pub const MAX_DECISION_CHARS: usize = 280;

/// The bits of 0.5: the confidence of a rule-based decision.
pub const RULE_CONFIDENCE: u32 = 0x3f00_0000;

/// A candidate decision lifted from a turn.
pub struct Candidate {
    pub turn_index: usize,
    pub text: String,
    pub confidence: F32Bits,
    /// Why it was chosen; empty for a rule-based decision.
    pub rationale: String,
    /// Alternatives turned down; none for a rule-based decision.
    pub rejected: Vec<String>,
    /// Which extractor it comes from.
    pub extractor: &'static str,
}

/// What a candidate says.
#[verifier::ext_equal]
pub struct CandidateV {
    pub turn_index: usize,
    pub text: Seq<char>,
    pub confidence: F32Bits,
    pub rationale: Seq<char>,
    pub rejected: Seq<Seq<char>>,
    pub extractor: Seq<char>,
}

impl View for Candidate {
    type V = CandidateV;

    open spec fn view(&self) -> CandidateV {
        CandidateV {
            turn_index: self.turn_index,
            text: self.text@,
            confidence: self.confidence,
            rationale: self.rationale@,
            rejected: text::string_views(self.rejected@),
            extractor: self.extractor@,
        }
    }
}

impl Clone for Candidate {
    fn clone(&self) -> (r: Candidate)
        ensures
            r@ == self@,
    {
        Candidate {
            turn_index: self.turn_index,
            text: self.text.clone(),
            confidence: self.confidence,
            rationale: self.rationale.clone(),
            rejected: crate::model::copy_strings(&self.rejected),
            extractor: self.extractor,
        }
    }
}

/// The views of a list of candidates.
pub open spec fn candidate_views(v: Seq<Candidate>) -> Seq<CandidateV> {
    v.map_values(|c: Candidate| c@)
}

/// A turn without recallable value: blank, wrapped in a noise marker, or a caveat banner.
pub open spec fn low_value(s: Seq<char>) -> bool {
    let t = text::trimmed(s);
    ||| t.len() == 0
    ||| exists|i: int| 0 <= i < NOISE_MARKERS && text::occurs(t, #[trigger] noise_marker_at(i))
    ||| text::has_prefix(t, "Caveat:"@)
}

/// Whether a turn carries no recallable value.
pub fn is_low_value_turn(s: &str) -> (r: bool)
    ensures
        r == low_value(s@),
{
    let t = text::trim(&text::chars_of(s));
    if t.len() == 0 {
        return true;
    }
    for i in 0..NOISE_MARKERS
        invariant
            t@ == text::trimmed(s@),
            t@.len() != 0,
            forall|j: int| 0 <= j < i ==> !text::occurs(t@, #[trigger] noise_marker_at(j)),
    {
        if text::contains(&t, noise_marker(i)) {
            assert(text::occurs(t@, noise_marker_at(i as int)));
            return true;
        }
    }
    text::starts_with(&t, "Caveat:")
}

/// The first cue, from index `i` on, that occurs in a lowered text.
pub open spec fn first_cue(lower: Seq<char>, i: int) -> Option<int>
    decreases CUES - i,
{
    if i >= CUES {
        None
    } else if text::occurs(lower, cue_at(i)) {
        Some(i)
    } else {
        first_cue(lower, i + 1)
    }
}

/// The sentence around an index: from after the last sentence end before it to its own end,
/// trimmed and cut to length.
pub open spec fn sentence_at(s: Seq<char>, at: int) -> Seq<char> {
    let start = text::after_last(s.take(at), CharClass::SentenceEnd);
    let stop = at + text::first_index(s.skip(at), CharClass::SentenceEnd);
    let end = if stop < s.len() {
        stop + 1
    } else {
        stop
    };
    text::first_chars(text::trimmed(s.subrange(start, end)), MAX_DECISION_CHARS as int)
}

/// The sentence with the first occurrence of a cue; nothing where it is blank.
pub open spec fn cue_sentence(s: Seq<char>, cue: Seq<char>) -> Option<Seq<char>> {
    match text::find_at(text::ascii_lowered(s), cue) {
        Some(at) => if sentence_at(s, at).len() == 0 {
            None
        } else {
            Some(sentence_at(s, at))
        },
        None => None,
    }
}

/// The sentence that makes a text a decision: that of the first cue in it, where it has enough
/// words.
pub open spec fn decision_sentence(s: Seq<char>) -> Option<Seq<char>> {
    match first_cue(text::ascii_lowered(s), 0) {
        Some(i) => match cue_sentence(s, cue_at(i)) {
            Some(t) => if text::runs(t, CharClass::Space).len() < MIN_DECISION_WORDS {
                None
            } else {
                Some(t)
            },
            None => None,
        },
        None => None,
    }
}

/// The decision of a turn: only user and assistant turns of some value have one.
pub open spec fn candidate_of(t: TurnV) -> Option<CandidateV> {
    if (t.kind == MessageKind::User || t.kind == MessageKind::Assistant) && !low_value(t.text) {
        match decision_sentence(t.text) {
            Some(s) => Some(
                CandidateV {
                    turn_index: t.index,
                    text: s,
                    confidence: RULE_CONFIDENCE,
                    rationale: Seq::empty(),
                    rejected: Seq::empty(),
                    extractor: "deterministic-v1"@,
                },
            ),
            None => None,
        }
    } else {
        None
    }
}

/// The decisions of a session, in turn order.
pub open spec fn candidates(turns: Seq<TurnV>) -> Seq<CandidateV>
    decreases turns.len(),
{
    if turns.len() == 0 {
        Seq::empty()
    } else {
        match candidate_of(turns.last()) {
            Some(c) => candidates(turns.drop_last()).push(c),
            None => candidates(turns.drop_last()),
        }
    }
}

fn sentence_around(original: &[char], lower: &[char], cue: &str) -> (r: Option<Vec<char>>)
    requires
        lower@ == text::ascii_lowered(original@),
    ensures
        match r {
            Some(t) => cue_sentence(original@, cue@) == Some(t@),
            None => cue_sentence(original@, cue@) is None,
        },
{
    let at: usize = match text::find(lower, &text::chars_of(cue)) {
        Some(at) => at,
        None => {
            return None;
        },
    };
    let n: usize = original.len();
    let before = text::part(original, 0, at);
    assert(before@ =~= original@.take(at as int));
    let start: usize = text::find_after_last(&before, CharClass::SentenceEnd);
    let after = text::part(original, at, n);
    assert(after@ =~= original@.skip(at as int));
    let stop: usize = at + text::find_class(&after, CharClass::SentenceEnd);
    let end: usize = if stop < n {
        stop + 1
    } else {
        stop
    };
    let s = text::take(&text::trim(&text::part(original, start, end)), MAX_DECISION_CHARS);
    assert(s@ == sentence_at(original@, at as int));
    if s.len() == 0 {
        None
    } else {
        Some(s)
    }
}

fn find_cue(lower: &[char]) -> (r: Option<usize>)
    ensures
        text::index_opt(r) == first_cue(lower@, 0),
{
    let mut i: usize = 0;
    while i < CUES
        invariant
            i <= CUES,
            first_cue(lower@, 0) == first_cue(lower@, i as int),
        decreases CUES - i,
    {
        if text::contains(lower, cue(i)) {
            return Some(i);
        }
        i += 1;
    }
    None
}

/// The decision of one turn.
pub fn extract_turn(t: &Turn) -> (r: Option<Candidate>)
    ensures
        match r {
            Some(c) => candidate_of(t@) == Some(c@),
            None => candidate_of(t@) is None,
        },
{
    let speaks = t.kind == MessageKind::User || t.kind == MessageKind::Assistant;
    if !speaks || is_low_value_turn(t.text.as_str()) {
        return None;
    }
    let original = text::chars_of(t.text.as_str());
    let lower = text::ascii_lower_of(&original);
    match find_cue(&lower) {
        Some(i) => match sentence_around(&original, &lower, cue(i)) {
            Some(sentence) => {
                if text::split_runs(&sentence, CharClass::Space).len() < MIN_DECISION_WORDS {
                    return None;
                }
                let c = Candidate {
                    turn_index: t.index,
                    text: text::string_of(&sentence),
                    confidence: RULE_CONFIDENCE,
                    rationale: String::new(),
                    rejected: Vec::new(),
                    extractor: "deterministic-v1",
                };
                assert(c@.rejected =~= Seq::empty());
                Some(c)
            },
            None => None,
        },
        None => None,
    }
}

/// Scans the turns of a session for decisions.
pub fn extract(turns: &[Turn]) -> (r: Vec<Candidate>)
    ensures
        candidate_views(r@) == candidates(crate::model::turn_views(turns@)),
{
    let mut out: Vec<Candidate> = Vec::new();
    let n: usize = turns.len();
    let ghost ts = crate::model::turn_views(turns@);
    for i in 0..n
        invariant
            n == turns@.len(),
            ts == crate::model::turn_views(turns@),
            candidate_views(out@) == candidates(ts.take(i as int)),
    {
        assert(ts.take(i + 1).drop_last() =~= ts.take(i as int));
        assert(ts.take(i + 1).last() == turns@[i as int]@);
        match extract_turn(&turns[i]) {
            Some(c) => {
                let ghost before = out@;
                out.push(c);
                assert(candidate_views(out@) =~= candidate_views(before).push(c@));
            },
            None => {},
        }
    }
    assert(ts.take(n as int) =~= ts);
    out
}

// ---------------------------------------------------------------------------
// Laws
// ---------------------------------------------------------------------------

/// A decision by rule has enough words and is not too long, and its text never comes from
/// noise.
pub proof fn decisions_have_substance(t: TurnV)
    ensures
        candidate_of(t) matches Some(c) ==> c.turn_index == t.index && c.text.len()
            <= MAX_DECISION_CHARS && text::runs(c.text, CharClass::Space).len()
            >= MIN_DECISION_WORDS && !low_value(t.text) && (t.kind == MessageKind::User || t.kind
            == MessageKind::Assistant),
{
}

/// The phrases that mark a decision.
pub open spec fn marks_decision(phrase: Seq<char>) -> bool {
    seq![
        "we'll use"@,
        "let's use"@,
        "i'll use"@,
        "decided to"@,
        "decision:"@,
        "go with"@,
        "going with"@,
        "switch to"@,
        "switching to"@,
        "instead of"@,
        "chose "@,
        "we should use"@,
        "rejected"@,
        "trade-off"@,
        "tradeoff"@,
        "the plan is"@,
    ].contains(phrase)
}

/// Each of the phrases is a cue, and there is no other.
pub proof fn cues_are_the_phrases(phrase: Seq<char>)
    ensures
        marks_decision(phrase) <==> exists|i: int| 0 <= i < CUES && #[trigger] cue_at(i) == phrase,
{
    let all = seq![
        "we'll use"@,
        "let's use"@,
        "i'll use"@,
        "decided to"@,
        "decision:"@,
        "go with"@,
        "going with"@,
        "switch to"@,
        "switching to"@,
        "instead of"@,
        "chose "@,
        "we should use"@,
        "rejected"@,
        "trade-off"@,
        "tradeoff"@,
        "the plan is"@,
    ];
    assert(all.len() == 16 && CUES == 16);
    assert(all[0] == cue_at(0) && all[1] == cue_at(1) && all[2] == cue_at(2) && all[3] == cue_at(3));
    assert(all[4] == cue_at(4) && all[5] == cue_at(5) && all[6] == cue_at(6) && all[7] == cue_at(7));
    assert(all[8] == cue_at(8) && all[9] == cue_at(9) && all[10] == cue_at(10) && all[11]
        == cue_at(11));
    assert(all[12] == cue_at(12) && all[13] == cue_at(13) && all[14] == cue_at(14) && all[15]
        == cue_at(15));
    assert forall|i: int| 0 <= i < 16 implies all[i] == #[trigger] cue_at(i) by {
        assert(i == 0 || i == 1 || i == 2 || i == 3 || i == 4 || i == 5 || i == 6 || i == 7 || i == 8
            || i == 9 || i == 10 || i == 11 || i == 12 || i == 13 || i == 14 || i == 15);
    }
    if all.contains(phrase) {
        let i = choose|i: int| 0 <= i < all.len() && all[i] == phrase;
        assert(cue_at(i) == phrase);
    }
    if exists|i: int| 0 <= i < CUES && #[trigger] cue_at(i) == phrase {
        let i = choose|i: int| 0 <= i < CUES && #[trigger] cue_at(i) == phrase;
        assert(all[i] == phrase);
    }
}

proof fn lemma_first_cue(lower: Seq<char>, i: int, k: int)
    requires
        0 <= i <= k < CUES,
        text::occurs(lower, cue_at(k)),
        forall|j: int| i <= j < k ==> !text::occurs(lower, #[trigger] cue_at(j)),
    ensures
        first_cue(lower, i) == Some(k),
    decreases k - i,
{
    if i < k {
        assert(!text::occurs(lower, cue_at(i)));
        lemma_first_cue(lower, i + 1, k);
    }
}

proof fn lemma_no_cue(lower: Seq<char>, i: int)
    requires
        0 <= i <= CUES,
        forall|j: int| i <= j < CUES ==> !text::occurs(lower, #[trigger] cue_at(j)),
    ensures
        first_cue(lower, i) is None,
    decreases CUES - i,
{
    if i < CUES {
        assert(!text::occurs(lower, cue_at(i)));
        lemma_no_cue(lower, i + 1);
    }
}

/// Whether a character ends a sentence.
pub open spec fn ends_sentence(c: char) -> bool {
    c == '.' || c == '!' || c == '?' || c == '\n'
}

/// Whether a sentence runs from one place to another around a third: it starts behind the last
/// sentence end before that place, and it ends with the first one from there on.
pub open spec fn sentence_runs(s: Seq<char>, at: int, start: int, end: int) -> bool {
    &&& 0 <= start <= at < end <= s.len()
    &&& start == 0 || ends_sentence(s[start - 1])
    &&& forall|j: int| start <= j < at ==> !ends_sentence(#[trigger] s[j])
    &&& forall|j: int| at <= j < end - 1 ==> !ends_sentence(#[trigger] s[j])
    &&& end == s.len() || ends_sentence(s[end - 1])
}

proof fn lemma_sentence(s: Seq<char>, at: int, start: int, end: int)
    requires
        sentence_runs(s, at, start, end),
    ensures
        sentence_at(s, at) == text::first_chars(
            text::trimmed(s.subrange(start, end)),
            MAX_DECISION_CHARS as int,
        ),
{
    let class = CharClass::SentenceEnd;
    let head = s.take(at);
    let tail = s.skip(at);
    assert forall|j: int| start <= j < head.len() implies !class.has(#[trigger] head[j]) by {
        assert(head[j] == s[j]);
    }
    if start > 0 {
        assert(head[start - 1] == s[start - 1]);
    }
    text::lemma_after_last_is(head, class, start);
    assert forall|j: int| 0 <= j < end - 1 - at implies !class.has(#[trigger] tail[j]) by {
        assert(tail[j] == s[at + j]);
    }
    assert(tail[end - 1 - at] == s[end - 1]);
    if ends_sentence(s[end - 1]) {
        text::lemma_first_index_is(tail, class, end - 1 - at);
    } else {
        text::lemma_first_index_is(tail, class, end - at);
    }
}

/// What is said is extracted, by whomever: a turn of a user or of the assistant that is not of
/// low value, and in which a phrase marks a decision, has a candidate. Its text is the sentence
/// around the first place of the phrase, trimmed and cut to 280 characters, where that has at
/// least five words.
pub proof fn spoken_decisions_are_extracted(t: TurnV, k: int, at: int, start: int, end: int)
    requires
        t.kind == MessageKind::User || t.kind == MessageKind::Assistant,
        !low_value(t.text),
        0 <= k < CUES,
        forall|j: int|
            0 <= j < k ==> !text::occurs(text::ascii_lowered(t.text), #[trigger] cue_at(j)),
        text::first_occurrence(text::ascii_lowered(t.text), cue_at(k), at),
        sentence_runs(t.text, at, start, end),
        text::runs(
            text::first_chars(text::trimmed(t.text.subrange(start, end)), 280),
            CharClass::Space,
        ).len() >= 5,
    ensures
        candidate_of(t) matches Some(c) && c.text == text::first_chars(
            text::trimmed(t.text.subrange(start, end)),
            280,
        ) && c.turn_index == t.index && c.confidence == 0x3f00_0000 && c.rationale.len() == 0
            && c.rejected.len() == 0 && c.extractor == "deterministic-v1"@,
{
    let lower = text::ascii_lowered(t.text);
    text::lemma_find_at(lower, cue_at(k), at);
    assert(text::occurs(lower, cue_at(k)));
    lemma_first_cue(lower, 0, k);
    lemma_sentence(t.text, at, start, end);
    let sentence = sentence_at(t.text, at);
    if sentence.len() == 0 {
        assert(text::runs(sentence, CharClass::Space).len() == 0);
    }
}

/// Only what is marked is a decision: a turn in which no phrase marks one, whose sentence is too
/// short, which is of low value, or which neither a user nor the assistant said, has none.
pub proof fn only_marked_turns_are_decisions(t: TurnV)
    requires
        candidate_of(t) is Some,
    ensures
        t.kind == MessageKind::User || t.kind == MessageKind::Assistant,
        !low_value(t.text),
        exists|i: int|
            0 <= i < CUES && text::occurs(text::ascii_lowered(t.text), #[trigger] cue_at(i)),
        text::runs(candidate_of(t)->0.text, CharClass::Space).len() >= 5,
        candidate_of(t)->0.text.len() <= 280,
{
    let lower = text::ascii_lowered(t.text);
    if forall|i: int| 0 <= i < CUES ==> !text::occurs(lower, #[trigger] cue_at(i)) {
        lemma_no_cue(lower, 0);
    }
}

/// What carries no value: a blank turn, one with the mark of a command or of an interruption
/// in it, and one that opens with a caveat. Everything else carries some.
pub proof fn noise_is_of_low_value(s: Seq<char>)
    ensures
        low_value(s) <==> {
            let t = text::trimmed(s);
            ||| forall|j: int| 0 <= j < s.len() ==> text::is_space(#[trigger] s[j])
            ||| text::occurs(t, "<command-name>"@)
            ||| text::occurs(t, "<command-message>"@)
            ||| text::occurs(t, "<command-args>"@)
            ||| text::occurs(t, "<local-command-stdout>"@)
            ||| text::occurs(t, "<local-command-stderr>"@)
            ||| text::occurs(t, "[Request interrupted"@)
            ||| text::has_prefix(t, "Caveat:"@)
        },
{
    let t = text::trimmed(s);
    let (a, b) = text::trimming_takes_only_space(s);
    if forall|j: int| 0 <= j < s.len() ==> text::is_space(#[trigger] s[j]) {
        if a < b {
            assert(text::is_space(s[a]));
        }
        assert(t.len() == 0);
    } else {
        let j = choose|j: int| 0 <= j < s.len() && !text::is_space(#[trigger] s[j]);
        assert(a <= j < b);
        assert(t.len() != 0);
    }
    assert(noise_marker_at(0) == "<command-name>"@);
    assert(noise_marker_at(1) == "<command-message>"@);
    assert(noise_marker_at(2) == "<command-args>"@);
    assert(noise_marker_at(3) == "<local-command-stdout>"@);
    assert(noise_marker_at(4) == "<local-command-stderr>"@);
    assert(noise_marker_at(5) == "[Request interrupted"@);
    if exists|i: int| 0 <= i < NOISE_MARKERS && text::occurs(t, #[trigger] noise_marker_at(i)) {
        let i = choose|i: int|
            0 <= i < NOISE_MARKERS && text::occurs(t, #[trigger] noise_marker_at(i));
        assert(i == 0 || i == 1 || i == 2 || i == 3 || i == 4 || i == 5);
    }
}

/// The decisions of a session are those of its turns, in their order: none is left out and none
/// is added.
pub proof fn sessions_keep_the_decisions_of_turns(turns: Seq<TurnV>)
    ensures
        candidates(turns) == turns.filter_map(|t: TurnV| candidate_of(t)),
        forall|i: int|
            0 <= i < turns.len() ==> ((#[trigger] candidate_of(turns[i])) matches Some(c) ==> candidates(
                turns,
            ).contains(c)),
    decreases turns.len(),
{
    let all = candidates(turns);
    let f = |t: TurnV| candidate_of(t);
    if turns.len() == 0 {
        assert(all =~= turns.filter_map(f));
    } else {
        let init = turns.drop_last();
        sessions_keep_the_decisions_of_turns(init);
        assert(all =~= turns.filter_map(f));
        assert forall|i: int| 0 <= i < turns.len() implies ((#[trigger] candidate_of(turns[i]))
            matches Some(c) ==> all.contains(c)) by {
            if let Some(c) = candidate_of(turns[i]) {
                if i < init.len() {
                    assert(init[i] == turns[i]);
                    let before = candidates(init);
                    assert(before.contains(c));
                    let k = choose|k: int| 0 <= k < before.len() && before[k] == c;
                    assert(all[k] == c);
                } else {
                    assert(all[all.len() - 1] == c);
                }
            }
        }
    }
}

/// The order in which the phrases are looked for: the first one that occurs marks the decision.
pub proof fn cues_are_tried_in_this_order(i: int)
    requires
        0 <= i < 16,
    ensures
        CUES == 16,
        cue_at(i) == seq![
            "we'll use"@,
            "let's use"@,
            "i'll use"@,
            "decided to"@,
            "decision:"@,
            "go with"@,
            "going with"@,
            "switch to"@,
            "switching to"@,
            "instead of"@,
            "chose "@,
            "we should use"@,
            "rejected"@,
            "trade-off"@,
            "tradeoff"@,
            "the plan is"@,
        ][i],
{
    assert(i == 0 || i == 1 || i == 2 || i == 3 || i == 4 || i == 5 || i == 6 || i == 7 || i == 8 || i
        == 9 || i == 10 || i == 11 || i == 12 || i == 13 || i == 14 || i == 15);
}

/// What a candidate says: all that it holds.
pub proof fn candidate_views_say_all(x: Candidate)
    ensures
        x@.turn_index == x.turn_index,
        x@.text == x.text@,
        x@.confidence == x.confidence,
        x@.rationale == x.rationale@,
        x@.rejected == text::string_views(x.rejected@),
        x@.extractor == x.extractor@,
{
}

/// Viewing a list keeps all its items, in their order.
pub proof fn candidate_views_keep_all(v: Seq<Candidate>, i: int)
    requires
        0 <= i < v.len(),
    ensures
        candidate_views(v).len() == v.len(),
        candidate_views(v)[i] == v[i]@,
{
}

} // verus!
