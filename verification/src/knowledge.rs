//! Knowledge notes, their provenance, and lexical search over a vault.
use vstd::prelude::*;
use crate::text::{
    byte_len, chars_of, contains, contains_seq, count_matches, count_matches_exec, lines,
    lines_exec, lowercase, replace_all, replace_all_exec, same_chars, string_of, to_lower, trim,
    trim_exec, views, alphanumeric, is_alphanumeric, byte_len_at_least,
};
use std::path::PathBuf;

verus! {

broadcast use vstd::string::group_string_axioms;

#[verifier::external_type_specification]
#[verifier::external_body]
pub struct ExPathBuf(PathBuf);

#[derive(Debug, Clone, Copy, PartialEq, Eq, Structural)]
pub enum CanonState {
    Canon,
    Working,
    Unresolved,
    Contradiction,
    Archive,
}

impl CanonState {
    pub open spec fn label_of(self) -> Seq<char> {
        match self {
            CanonState::Canon => "Canon"@,
            CanonState::Working => "Working"@,
            CanonState::Unresolved => "Unresolved"@,
            CanonState::Contradiction => "Contradiction"@,
            CanonState::Archive => "Archive"@,
        }
    }

    pub fn label(self) -> (r: &'static str)
        ensures
            r@ == self.label_of(),
    {
        match self {
            CanonState::Canon => "Canon",
            CanonState::Working => "Working",
            CanonState::Unresolved => "Unresolved",
            CanonState::Contradiction => "Contradiction",
            CanonState::Archive => "Archive",
        }
    }
}

/// Provenance of a note, from least to most authoritative.
#[derive(Debug, Clone, Copy, PartialEq, Eq, Structural)]
pub enum SourceAuthority {
    Archive,
    AssistantReconstruction,
    AssistantSynthesis,
    StructuredVault,
    RecoveredUserContext,
    UserStated,
    UserCorrected,
    CanonSynthesis,
}

impl SourceAuthority {
    /// Rank in declaration order; authorities compare by this rank.
    pub open spec fn rank(self) -> nat {
        match self {
            SourceAuthority::Archive => 0,
            SourceAuthority::AssistantReconstruction => 1,
            SourceAuthority::AssistantSynthesis => 2,
            SourceAuthority::StructuredVault => 3,
            SourceAuthority::RecoveredUserContext => 4,
            SourceAuthority::UserStated => 5,
            SourceAuthority::UserCorrected => 6,
            SourceAuthority::CanonSynthesis => 7,
        }
    }

    pub open spec fn label_of(self) -> Seq<char> {
        match self {
            SourceAuthority::Archive => "Archive"@,
            SourceAuthority::AssistantReconstruction => "Reconstruction"@,
            SourceAuthority::AssistantSynthesis => "Assistant synthesis"@,
            SourceAuthority::StructuredVault => "Structured vault"@,
            SourceAuthority::RecoveredUserContext => "Recovered context"@,
            SourceAuthority::UserStated => "User-stated"@,
            SourceAuthority::UserCorrected => "User-corrected"@,
            SourceAuthority::CanonSynthesis => "Canon synthesis"@,
        }
    }

    pub fn label(self) -> (r: &'static str)
        ensures
            r@ == self.label_of(),
    {
        match self {
            SourceAuthority::Archive => "Archive",
            SourceAuthority::AssistantReconstruction => "Reconstruction",
            SourceAuthority::AssistantSynthesis => "Assistant synthesis",
            SourceAuthority::StructuredVault => "Structured vault",
            SourceAuthority::RecoveredUserContext => "Recovered context",
            SourceAuthority::UserStated => "User-stated",
            SourceAuthority::UserCorrected => "User-corrected",
            SourceAuthority::CanonSynthesis => "Canon synthesis",
        }
    }

    /// The search bonus of a source equals its rank.
    pub fn weight(self) -> (r: u32)
        ensures
            r == self.rank(),
    {
        match self {
            SourceAuthority::Archive => 0,
            SourceAuthority::AssistantReconstruction => 1,
            SourceAuthority::AssistantSynthesis => 2,
            SourceAuthority::StructuredVault => 3,
            SourceAuthority::RecoveredUserContext => 4,
            SourceAuthority::UserStated => 5,
            SourceAuthority::UserCorrected => 6,
            SourceAuthority::CanonSynthesis => 7,
        }
    }
}

#[derive(Debug)]
pub struct KnowledgeNote {
    pub id: usize,
    pub title: String,
    pub relative_path: String,
    pub absolute_path: PathBuf,
    pub excerpt: String,
    pub body: String,
    pub tags: Vec<String>,
    pub canon_state: CanonState,
    pub authority: SourceAuthority,
}

#[derive(Debug, Clone)]
pub struct SearchHit {
    pub note_id: usize,
    pub score: u32,
    pub snippet: String,
}

impl SearchHit {
    pub fn clone_hit(&self) -> (r: SearchHit)
        ensures
            r@ == self@,
    {
        SearchHit { note_id: self.note_id, score: self.score, snippet: self.snippet.clone() }
    }
}

impl View for SearchHit {
    type V = (usize, u32, Seq<char>);

    open spec fn view(&self) -> (usize, u32, Seq<char>) {
        (self.note_id, self.score, self.snippet@)
    }
}

#[derive(Debug)]
pub struct VaultIndex {
    pub root: PathBuf,
    pub notes: Vec<KnowledgeNote>,
}

/// Views of a vector of strings.
pub open spec fn string_views(v: Seq<String>) -> Seq<Seq<char>> {
    v.map_values(|x: String| x@)
}

// ---------------------------------------------------------------------------
// Markdown cleanup and truncation
// ---------------------------------------------------------------------------

pub open spec fn is_marker(c: char) -> bool {
    c == '#' || c == '-' || c == '>' || c == '*' || c == ' '
}

/// Number of leading Markdown marker characters (`#`, `-`, `>`, `*`, space).
pub open spec fn lead_markers(s: Seq<char>) -> nat
    decreases s.len(),
{
    if s.len() > 0 && is_marker(s[0]) {
        1 + lead_markers(s.drop_first())
    } else {
        0
    }
}

/// A line with surrounding whitespace and leading Markdown markers removed,
/// and with every `**`, `[[`, `]]` and backtick deleted.
pub open spec fn cleaned(line: Seq<char>) -> Seq<char> {
    let t = trim(line);
    let u = t.skip(lead_markers(t) as int);
    let empty = Seq::<char>::empty();
    replace_all(replace_all(replace_all(replace_all(u, "**"@, empty), "[["@, empty), "]]"@, empty), "`"@, empty)
}

fn clean_chars(line: &Vec<char>) -> (r: Vec<char>)
    ensures
        r@ == cleaned(line@),
{
    let t = trim_exec(line);
    let mut start: usize = 0;
    assert(t@.skip(0) =~= t@);
    while start < t.len() && (t[start] == '#' || t[start] == '-' || t[start] == '>' || t[start] == '*'
        || t[start] == ' ')
        invariant
            start <= t.len(),
            lead_markers(t@) == start + lead_markers(t@.skip(start as int)),
        decreases t.len() - start,
    {
        assert(t@.skip(start as int).drop_first() =~= t@.skip(start + 1));
        start = start + 1;
    }
    let mut u: Vec<char> = Vec::new();
    let mut k = start;
    while k < t.len()
        invariant
            start <= k <= t.len(),
            u@ == t@.subrange(start as int, k as int),
        decreases t.len() - k,
    {
        u.push(t[k]);
        assert(t@.subrange(start as int, k + 1) =~= t@.subrange(start as int, k as int).push(t@[k as int]));
        k = k + 1;
    }
    assert(u@ =~= t@.skip(start as int));
    let empty: Vec<char> = Vec::new();
    let p1 = chars_of("**");
    let p2 = chars_of("[[");
    let p3 = chars_of("]]");
    let p4 = chars_of("`");
    proof {
        reveal_strlit("**");
        reveal_strlit("[[");
        reveal_strlit("]]");
        reveal_strlit("`");
    }
    let a = replace_all_exec(&u, &p1, &empty);
    let b = replace_all_exec(&a, &p2, &empty);
    let c = replace_all_exec(&b, &p3, &empty);
    let d = replace_all_exec(&c, &p4, &empty);
    assert(empty@ =~= Seq::<char>::empty());
    d
}

pub fn clean_markdown(line: &str) -> (r: String)
    ensures
        r@ == cleaned(line@),
{
    let v = chars_of(line);
    string_of(&clean_chars(&v))
}

/// The first `max_chars` characters, followed by an ellipsis when characters
/// were cut off.
pub open spec fn truncated(text: Seq<char>, max_chars: nat) -> Seq<char> {
    if text.len() > max_chars {
        text.take(max_chars as int).push('…')
    } else {
        text
    }
}

pub fn truncate(text: &str, max_chars: usize) -> (r: String)
    ensures
        r@ == truncated(text@, max_chars as nat),
{
    let v = chars_of(text);
    let mut out: Vec<char> = Vec::new();
    let mut i: usize = 0;
    while i < v.len() && i < max_chars
        invariant
            i <= v.len(),
            i <= max_chars,
            out@ == v@.take(i as int),
        decreases v.len() - i,
    {
        out.push(v[i]);
        assert(v@.take(i + 1) =~= v@.take(i as int).push(v@[i as int]));
        i = i + 1;
    }
    if v.len() > max_chars {
        out.push('…');
    } else {
        assert(v@.take(i as int) =~= v@);
    }
    string_of(&out)
}


// ---------------------------------------------------------------------------
// Query terms
// ---------------------------------------------------------------------------

/// Words too common to count as search terms.
pub open spec fn stop_words() -> Seq<Seq<char>> {
    seq![
        "about"@, "already"@, "also"@, "and"@, "any"@, "are"@, "does"@, "from"@, "have"@,
        "into"@, "know"@, "more"@, "that"@, "the"@, "their"@, "there"@, "these"@, "this"@,
        "what"@, "when"@, "where"@, "which"@, "with"@, "would"@,
    ]
}

/// A lowercased word is a term when it has at least four bytes and is not a
/// stop word.
pub open spec fn is_term(word: Seq<char>) -> bool {
    byte_len(word) >= 4 && !stop_words().contains(word)
}

/// Words finished so far and the word still open, splitting `s` at every
/// character that is not alphanumeric.
pub open spec fn words_state(s: Seq<char>) -> (Seq<Seq<char>>, Seq<char>)
    decreases s.len(),
{
    if s.len() == 0 {
        (seq![], seq![])
    } else {
        let (done, open) = words_state(s.drop_last());
        if alphanumeric(s.last()) {
            (done, open.push(s.last()))
        } else {
            (done.push(open), seq![])
        }
    }
}

/// `s` split at every non-alphanumeric character (empty pieces included).
pub open spec fn words(s: Seq<char>) -> Seq<Seq<char>> {
    let (done, open) = words_state(s);
    done.push(open)
}

/// Lowercased pieces that are terms, in order.
pub open spec fn terms_among(pieces: Seq<Seq<char>>) -> Seq<Seq<char>>
    decreases pieces.len(),
{
    if pieces.len() == 0 {
        seq![]
    } else {
        let rest = terms_among(pieces.drop_last());
        let w = lowercase(pieces.last());
        if is_term(w) {
            rest.push(w)
        } else {
            rest
        }
    }
}

pub open spec fn terms_of(text: Seq<char>) -> Seq<Seq<char>> {
    terms_among(words(text))
}

proof fn lemma_terms_among_push(pieces: Seq<Seq<char>>, p: Seq<char>)
    ensures
        terms_among(pieces.push(p)) == (if is_term(lowercase(p)) {
            terms_among(pieces).push(lowercase(p))
        } else {
            terms_among(pieces)
        }),
{
    assert(pieces.push(p).drop_last() =~= pieces);
}

fn stop_word_list() -> (r: Vec<Vec<char>>)
    ensures
        views(r@) == stop_words(),
{
    let mut r: Vec<Vec<char>> = Vec::new();
    r.push(chars_of("about"));
    r.push(chars_of("already"));
    r.push(chars_of("also"));
    r.push(chars_of("and"));
    r.push(chars_of("any"));
    r.push(chars_of("are"));
    r.push(chars_of("does"));
    r.push(chars_of("from"));
    r.push(chars_of("have"));
    r.push(chars_of("into"));
    r.push(chars_of("know"));
    r.push(chars_of("more"));
    r.push(chars_of("that"));
    r.push(chars_of("the"));
    r.push(chars_of("their"));
    r.push(chars_of("there"));
    r.push(chars_of("these"));
    r.push(chars_of("this"));
    r.push(chars_of("what"));
    r.push(chars_of("when"));
    r.push(chars_of("where"));
    r.push(chars_of("which"));
    r.push(chars_of("with"));
    r.push(chars_of("would"));
    assert(views(r@) =~= stop_words());
    r
}

fn seq_member(list: &Vec<Vec<char>>, w: &Vec<char>) -> (r: bool)
    ensures
        r == views(list@).contains(w@),
{
    let mut i: usize = 0;
    while i < list.len()
        invariant
            i <= list.len(),
            forall|j: int| 0 <= j < i ==> list@[j]@ != w@,
        decreases list.len() - i,
    {
        if same_chars(&list[i], w) {
            assert(views(list@)[i as int] == w@);
            return true;
        }
        i = i + 1;
    }
    proof {
        if views(list@).contains(w@) {
            let j = choose|j: int| 0 <= j < views(list@).len() && views(list@)[j] == w@;
            assert(list@[j]@ == w@);
        }
    }
    false
}

/// Lowercases a word and keeps it when it is a term.
fn push_if_term(out: &mut Vec<String>, piece: &Vec<char>, stops: &Vec<Vec<char>>)
    requires
        views(stops@) == stop_words(),
    ensures
        string_views(final(out)@) == (if is_term(lowercase(piece@)) {
            string_views(old(out)@).push(lowercase(piece@))
        } else {
            string_views(old(out)@)
        }),
{
    let s = string_of(piece);
    let lower = to_lower(s.as_str());
    let lower_chars = chars_of(lower.as_str());
    if byte_len_at_least(&lower_chars, 4) && !seq_member(stops, &lower_chars) {
        let ghost before = string_views(out@);
        out.push(lower);
        assert(string_views(out@) =~= before.push(lowercase(piece@)));
    } else {
        assert(string_views(out@) =~= string_views(old(out)@));
    }
}

/// Lowercased words of at least four bytes that are not stop words, in order.
pub fn meaningful_terms(text: &str) -> (r: Vec<String>)
    ensures
        string_views(r@) == terms_of(text@),
{
    let stops = stop_word_list();
    let s = chars_of(text);
    let mut out: Vec<String> = Vec::new();
    let mut open: Vec<char> = Vec::new();
    let mut i: usize = 0;
    while i < s.len()
        invariant
            i <= s.len(),
            views(stops@) == stop_words(),
            s@ == text@,
            string_views(out@) == terms_among(words_state(s@.take(i as int)).0),
            open@ == words_state(s@.take(i as int)).1,
        decreases s.len() - i,
    {
        assert(s@.take(i + 1).drop_last() =~= s@.take(i as int));
        let c = s[i];
        if is_alphanumeric(c) {
            open.push(c);
        } else {
            proof {
                lemma_terms_among_push(words_state(s@.take(i as int)).0, open@);
            }
            push_if_term(&mut out, &open, &stops);
            open = Vec::new();
        }
        i = i + 1;
    }
    assert(s@.take(s.len() as int) =~= s@);
    proof {
        lemma_terms_among_push(words_state(s@).0, open@);
    }
    push_if_term(&mut out, &open, &stops);
    out
}


// ---------------------------------------------------------------------------
// Search
// ---------------------------------------------------------------------------

/// Terms of each context chip, chip after chip.
pub open spec fn context_terms(chips: Seq<Seq<char>>) -> Seq<Seq<char>>
    decreases chips.len(),
{
    if chips.len() == 0 {
        seq![]
    } else {
        context_terms(chips.drop_last()) + terms_of(chips.last())
    }
}

/// Each element once, at its first occurrence.
pub open spec fn distinct(ts: Seq<Seq<char>>) -> Seq<Seq<char>>
    decreases ts.len(),
{
    if ts.len() == 0 {
        seq![]
    } else {
        let r = distinct(ts.drop_last());
        if r.contains(ts.last()) {
            r
        } else {
            r.push(ts.last())
        }
    }
}

/// The distinct terms of a query and its context chips.
pub open spec fn search_terms(query: Seq<char>, chips: Seq<Seq<char>>) -> Seq<Seq<char>> {
    distinct(terms_of(query) + context_terms(chips))
}

/// Tags joined by single spaces.
pub open spec fn join_space(tags: Seq<Seq<char>>) -> Seq<char>
    decreases tags.len(),
{
    if tags.len() == 0 {
        seq![]
    } else if tags.len() == 1 {
        tags[0]
    } else {
        join_space(tags.drop_last()) + seq![' '] + tags.last()
    }
}

pub open spec fn min_nat(a: nat, b: nat) -> nat {
    if a < b {
        a
    } else {
        b
    }
}

/// Points a term earns in one note: 24 per title match, 10 per path match,
/// 8 per tag match and 2 per body match, counting at most 12 body matches.
pub open spec fn term_points(
    title: Seq<char>,
    path: Seq<char>,
    tags: Seq<char>,
    body: Seq<char>,
    t: Seq<char>,
) -> int {
    (24 * count_matches(title, t) + 10 * count_matches(path, t) + 8 * count_matches(tags, t) + 2
        * min_nat(count_matches(body, t), 12)) as int
}

pub open spec fn raw_score(
    title: Seq<char>,
    path: Seq<char>,
    tags: Seq<char>,
    body: Seq<char>,
    terms: Seq<Seq<char>>,
) -> int
    decreases terms.len(),
{
    if terms.len() == 0 {
        0
    } else {
        raw_score(title, path, tags, body, terms.drop_last()) + term_points(
            title,
            path,
            tags,
            body,
            terms.last(),
        )
    }
}

/// Scores are `u32` values that wrap around.
pub open spec fn wrap(x: int) -> int {
    x % 0x1_0000_0000
}

/// Textual score of a note: lowercase title, path, space-joined tags and body
/// matched against every term.
pub open spec fn lexical_score(note: KnowledgeNote, terms: Seq<Seq<char>>) -> int {
    wrap(
        raw_score(
            lowercase(note.title@),
            lowercase(note.relative_path@),
            lowercase(join_space(string_views(note.tags@))),
            lowercase(note.body@),
            terms,
        ),
    )
}

/// Number of terms occurring in a lowercased line.
pub open spec fn matching_terms(lower: Seq<char>, terms: Seq<Seq<char>>) -> nat
    decreases terms.len(),
{
    if terms.len() == 0 {
        0
    } else {
        matching_terms(lower, terms.drop_last()) + if contains_seq(lower, terms.last()) {
            1nat
        } else {
            0nat
        }
    }
}

/// The cleaned line of at least 24 bytes that matches the most terms, the
/// last one among equals, with its match count.
pub open spec fn snippet_pick(ls: Seq<Seq<char>>, terms: Seq<Seq<char>>) -> Option<(nat, Seq<char>)>
    decreases ls.len(),
{
    if ls.len() == 0 {
        None
    } else {
        let prev = snippet_pick(ls.drop_last(), terms);
        let c = cleaned(ls.last());
        let m = matching_terms(lowercase(c), terms);
        if byte_len(c) < 24 || m == 0 {
            prev
        } else {
            match prev {
                Some((pm, _)) => if pm > m {
                    prev
                } else {
                    Some((m, c))
                },
                None => Some((m, c)),
            }
        }
    }
}

/// Passage shown for a note: its best matching line, or else its excerpt, cut
/// to 260 characters.
pub open spec fn snippet_of(note: KnowledgeNote, terms: Seq<Seq<char>>) -> Seq<char> {
    let best = match snippet_pick(lines(note.body@), terms) {
        Some((_, line)) => line,
        None => note.excerpt@,
    };
    truncated(best, 260)
}

/// A note with a non-zero textual score is a hit; its score adds the
/// authority weight.
pub open spec fn hit_for(note: KnowledgeNote, terms: Seq<Seq<char>>) -> Option<(usize, u32, Seq<char>)> {
    let lex = lexical_score(note, terms);
    if lex == 0 {
        None
    } else {
        Some((note.id, wrap(lex + note.authority.rank()) as u32, snippet_of(note, terms)))
    }
}

pub open spec fn candidate_hits(notes: Seq<KnowledgeNote>, terms: Seq<Seq<char>>) -> Seq<(usize, u32, Seq<char>)>
    decreases notes.len(),
{
    if notes.len() == 0 {
        seq![]
    } else {
        let rest = candidate_hits(notes.drop_last(), terms);
        match hit_for(notes.last(), terms) {
            Some(h) => rest.push(h),
            None => rest,
        }
    }
}

/// Strict lexicographic order of character sequences by code point, which is
/// the byte order of their UTF-8 encodings.
pub open spec fn text_precedes(a: Seq<char>, b: Seq<char>) -> bool
    decreases a.len(),
{
    if a.len() == 0 {
        b.len() > 0
    } else if b.len() == 0 {
        false
    } else if a[0] != b[0] {
        (a[0] as u32) < (b[0] as u32)
    } else {
        text_precedes(a.drop_first(), b.drop_first())
    }
}

/// `a` ranks strictly ahead of `b`: higher score, then the note with higher
/// authority, then the note whose title comes first.
pub open spec fn ranks_before(
    notes: Seq<KnowledgeNote>,
    a: (usize, u32, Seq<char>),
    b: (usize, u32, Seq<char>),
) -> bool {
    let na = notes[a.0 as int];
    let nb = notes[b.0 as int];
    ||| a.1 > b.1
    ||| a.1 == b.1 && na.authority.rank() > nb.authority.rank()
    ||| a.1 == b.1 && na.authority.rank() == nb.authority.rank() && text_precedes(
        na.title@,
        nb.title@,
    )
}

/// Where a hit goes in a ranked list: before the first hit it ranks ahead of.
pub open spec fn insert_pos(
    notes: Seq<KnowledgeNote>,
    s: Seq<(usize, u32, Seq<char>)>,
    h: (usize, u32, Seq<char>),
) -> nat
    decreases s.len(),
{
    if s.len() == 0 {
        0
    } else if ranks_before(notes, h, s[0]) {
        0
    } else {
        1 + insert_pos(notes, s.drop_first(), h)
    }
}

/// Stable ranking of hits.
pub open spec fn ranked(notes: Seq<KnowledgeNote>, s: Seq<(usize, u32, Seq<char>)>) -> Seq<(usize, u32, Seq<char>)>
    decreases s.len(),
{
    if s.len() == 0 {
        seq![]
    } else {
        let r = ranked(notes, s.drop_last());
        r.insert(insert_pos(notes, r, s.last()) as int, s.last())
    }
}

/// Hits of a search: ranked, then cut to `limit`.
pub open spec fn search_result(
    notes: Seq<KnowledgeNote>,
    terms: Seq<Seq<char>>,
    limit: nat,
) -> Seq<(usize, u32, Seq<char>)> {
    let r = ranked(notes, candidate_hits(notes, terms));
    if limit < r.len() {
        r.take(limit as int)
    } else {
        r
    }
}

pub open spec fn hit_views(v: Seq<SearchHit>) -> Seq<(usize, u32, Seq<char>)> {
    v.map_values(|h: SearchHit| h@)
}

/// Hits sharing a score point into the note list: ranking looks notes up
/// only to break a tie of scores, and a sort compares every hit with a
/// neighbour of the same score, so only those ids are looked up.
pub open spec fn ties_in_range(c: Seq<(usize, u32, Seq<char>)>, n: nat) -> bool {
    forall|i: int, j: int|
        0 <= i < c.len() && 0 <= j < c.len() && i != j && (#[trigger] c[i]).1 == (#[trigger] c[j]).1
            ==> c[i].0 < n
}

/// The hits of `terms` can be ranked.
pub open spec fn rankable(notes: Seq<KnowledgeNote>, terms: Seq<Seq<char>>) -> bool {
    ties_in_range(candidate_hits(notes, terms), notes.len())
}

fn lower_chars(s: &str) -> (r: Vec<char>)
    ensures
        r@ == lowercase(s@),
{
    let l = to_lower(s);
    chars_of(l.as_str())
}

fn join_tags(tags: &Vec<String>) -> (r: Vec<char>)
    ensures
        r@ == join_space(string_views(tags@)),
{
    let mut out: Vec<char> = Vec::new();
    let mut i: usize = 0;
    while i < tags.len()
        invariant
            i <= tags.len(),
            out@ == join_space(string_views(tags@).take(i as int)),
        decreases tags.len() - i,
    {
        let ghost prev = string_views(tags@).take(i as int);
        assert(string_views(tags@).take(i + 1).drop_last() =~= prev);
        assert(string_views(tags@).take(i + 1).last() == tags@[i as int]@);
        let t = chars_of(tags[i].as_str());
        if i > 0 {
            out.push(' ');
        }
        let ghost base = out@;
        let mut k: usize = 0;
        while k < t.len()
            invariant
                k <= t.len(),
                out@ == base + t@.take(k as int),
            decreases t.len() - k,
        {
            out.push(t[k]);
            assert(t@.take(k + 1) =~= t@.take(k as int).push(t@[k as int]));
            k = k + 1;
        }
        assert(t@.take(t.len() as int) =~= t@);
        proof {
            if i == 0 {
                assert(base =~= Seq::<char>::empty());
                assert(out@ =~= t@);
                assert(string_views(tags@).take(1)[0] == t@);
            } else {
                assert(out@ =~= join_space(prev) + seq![' '] + t@);
            }
        }
        i = i + 1;
    }
    assert(string_views(tags@).take(tags.len() as int) =~= string_views(tags@));
    out
}


/// `(a + b) mod 2^32`, as `u32::wrapping_add` computes it.
fn add_wrapping(a: u32, b: u32) -> (r: u32)
    ensures
        r == wrap(a + b),
{
    a.wrapping_add(b)
}

/// Points of one term, reduced modulo 2^32 as `u32` arithmetic does.
fn points_wrapping(title: usize, path: usize, tags: usize, body: usize) -> (r: u32)
    ensures
        r == wrap(24 * title + 10 * path + 8 * tags + 2 * min_nat(body as nat, 12)),
{
    let m: u64 = 0x1_0000_0000;
    let a: u64 = (title as u64 % m) * 24 % m;
    let b: u64 = (path as u64 % m) * 10 % m;
    let c: u64 = (tags as u64 % m) * 8 % m;
    let capped: u64 = if body < 12 { body as u64 } else { 12 };
    let d: u64 = capped * 2;
    proof {
        vstd::arithmetic::div_mod::lemma_mul_mod_noop_left(title as int, 24, m as int);
        vstd::arithmetic::div_mod::lemma_mul_mod_noop_left(path as int, 10, m as int);
        vstd::arithmetic::div_mod::lemma_mul_mod_noop_left(tags as int, 8, m as int);
        vstd::arithmetic::div_mod::lemma_add_mod_noop(24 * title, 10 * path, m as int);
        vstd::arithmetic::div_mod::lemma_add_mod_noop(24 * title + 10 * path, 8 * tags, m as int);
        vstd::arithmetic::div_mod::lemma_add_mod_noop(
            24 * title + 10 * path + 8 * tags,
            2 * (min_nat(body as nat, 12) as int),
            m as int,
        );
        vstd::arithmetic::div_mod::lemma_mod_twice(24 * title + 10 * path, m as int);
        vstd::arithmetic::div_mod::lemma_mod_twice(24 * title + 10 * path + 8 * tags, m as int);
        vstd::arithmetic::div_mod::lemma_small_mod(d as nat, m as nat);
    }
    let ab = (a + b) % m;
    let abc = (ab + c) % m;
    let abcd = (abc + d) % m;
    assert(abcd == wrap(24 * title + 10 * path + 8 * tags + 2 * min_nat(body as nat, 12))) by {
        vstd::arithmetic::div_mod::lemma_add_mod_noop(24 * title, 10 * path, m as int);
    }
    abcd as u32
}

fn term_count_in(lower: &Vec<char>, terms: &Vec<Vec<char>>) -> (r: usize)
    ensures
        r == matching_terms(lower@, views(terms@)),
        r <= terms.len(),
{
    let mut n: usize = 0;
    let mut i: usize = 0;
    while i < terms.len()
        invariant
            i <= terms.len(),
            n <= i,
            n == matching_terms(lower@, views(terms@).take(i as int)),
        decreases terms.len() - i,
    {
        assert(views(terms@).take(i + 1).drop_last() =~= views(terms@).take(i as int));
        if contains(lower, &terms[i]) {
            n = n + 1;
        }
        i = i + 1;
    }
    assert(views(terms@).take(terms.len() as int) =~= views(terms@));
    n
}

/// The passage shown for a hit on `note`.
pub fn best_snippet(note: &KnowledgeNote, terms: &Vec<Vec<char>>) -> (r: String)
    ensures
        r@ == snippet_of(*note, views(terms@)),
{
    let body = chars_of(note.body.as_str());
    let ls = lines_exec(&body);
    let ghost tv = views(terms@);
    let mut has_best = false;
    let mut best_m: usize = 0;
    let mut best_line: Vec<char> = Vec::new();
    let mut i: usize = 0;
    while i < ls.len()
        invariant
            i <= ls.len(),
            tv == views(terms@),
            match snippet_pick(views(ls@).take(i as int), tv) {
                None => !has_best,
                Some((m, l)) => has_best && best_m == m && best_line@ == l,
            },
        decreases ls.len() - i,
    {
        assert(views(ls@).take(i + 1).drop_last() =~= views(ls@).take(i as int));
        assert(views(ls@).take(i + 1).last() == ls@[i as int]@);
        let clean = clean_chars(&ls[i]);
        if byte_len_at_least(&clean, 24) {
            let lower = lower_chars(string_of(&clean).as_str());
            let m = term_count_in(&lower, terms);
            if m > 0 && (!has_best || m >= best_m) {
                has_best = true;
                best_m = m;
                best_line = clean;
            }
        }
        i = i + 1;
    }
    assert(views(ls@).take(ls.len() as int) =~= views(ls@));
    let best = if has_best {
        string_of(&best_line)
    } else {
        note.excerpt.clone()
    };
    truncate(best.as_str(), 260)
}

fn text_before(a: &Vec<char>, b: &Vec<char>) -> (r: bool)
    ensures
        r == text_precedes(a@, b@),
{
    let mut i: usize = 0;
    assert(a@.skip(0) =~= a@);
    assert(b@.skip(0) =~= b@);
    while i < a.len() && i < b.len()
        invariant
            i <= a.len(),
            i <= b.len(),
            text_precedes(a@, b@) == text_precedes(a@.skip(i as int), b@.skip(i as int)),
        decreases a.len() - i,
    {
        assert(a@.skip(i as int)[0] == a@[i as int]);
        assert(b@.skip(i as int)[0] == b@[i as int]);
        if a[i] != b[i] {
            return (a[i] as u32) < (b[i] as u32);
        }
        assert(a@.skip(i as int).drop_first() =~= a@.skip(i + 1));
        assert(b@.skip(i as int).drop_first() =~= b@.skip(i + 1));
        i = i + 1;
    }
    i == a.len() && i < b.len()
}

fn hit_ranks_before(notes: &Vec<KnowledgeNote>, a: &SearchHit, b: &SearchHit) -> (r: bool)
    requires
        a.score == b.score ==> a.note_id < notes.len() && b.note_id < notes.len(),
    ensures
        r == ranks_before(notes@, a@, b@),
{
    if a.score != b.score {
        return a.score > b.score;
    }
    let wa = notes[a.note_id].authority.weight();
    let wb = notes[b.note_id].authority.weight();
    if wa != wb {
        return wa > wb;
    }
    let ta = chars_of(notes[a.note_id].title.as_str());
    let tb = chars_of(notes[b.note_id].title.as_str());
    text_before(&ta, &tb)
}

proof fn lemma_insert_pos_found(
    notes: Seq<KnowledgeNote>,
    s: Seq<(usize, u32, Seq<char>)>,
    h: (usize, u32, Seq<char>),
    i: int,
)
    requires
        0 <= i <= s.len(),
        forall|j: int| 0 <= j < i ==> !ranks_before(notes, h, #[trigger] s[j]),
        i == s.len() || ranks_before(notes, h, s[i]),
    ensures
        insert_pos(notes, s, h) == i,
    decreases i,
{
    if i > 0 {
        let t = s.drop_first();
        assert forall|j: int| 0 <= j < i - 1 implies !ranks_before(notes, h, #[trigger] t[j]) by {
            assert(t[j] == s[j + 1]);
        }
        if i < s.len() {
            assert(t[i - 1] == s[i]);
        }
        lemma_insert_pos_found(notes, t, h, i - 1);
        assert(!ranks_before(notes, h, s[0]));
    }
}

/// Places a hit into a ranked list after every hit it does not rank ahead of.
fn insert_ranked(notes: &Vec<KnowledgeNote>, sorted: &mut Vec<SearchHit>, h: SearchHit)
    requires
        forall|j: int|
            0 <= j < old(sorted)@.len() && (#[trigger] old(sorted)@[j]).score == h.score ==> old(sorted)@[j].note_id
                < notes.len() && h.note_id < notes.len(),
    ensures
        hit_views(final(sorted)@) == hit_views(old(sorted)@).insert(
            insert_pos(notes@, hit_views(old(sorted)@), h@) as int,
            h@,
        ),
{
    let ghost hv = hit_views(sorted@);
    let mut i: usize = 0;
    while i < sorted.len() && !hit_ranks_before(notes, &h, &sorted[i])
        invariant
            i <= sorted.len(),
            hv == hit_views(sorted@),
            forall|j: int|
                0 <= j < sorted@.len() && (#[trigger] sorted@[j]).score == h.score ==> sorted@[j].note_id
                    < notes.len() && h.note_id < notes.len(),
            forall|j: int| 0 <= j < i ==> !ranks_before(notes@, h@, #[trigger] hv[j]),
        decreases sorted.len() - i,
    {
        i = i + 1;
    }
    proof {
        lemma_insert_pos_found(notes@, hv, h@, i as int);
    }
    sorted.insert(i, h);
    assert(hit_views(sorted@) =~= hv.insert(i as int, h@));
}

/// Whether every hit sharing its score with another points into the list.
fn ties_checked(n: usize, found: &Vec<SearchHit>) -> (r: bool)
    ensures
        r == ties_in_range(hit_views(found@), n as nat),
{
    let ghost fv = hit_views(found@);
    let mut i: usize = 0;
    while i < found.len()
        invariant
            i <= found.len(),
            fv == hit_views(found@),
            forall|a: int, b: int|
                0 <= a < i && 0 <= b < fv.len() && a != b && (#[trigger] fv[a]).1 == (#[trigger] fv[b]).1
                    ==> fv[a].0 < n,
        decreases found.len() - i,
    {
        let mut j: usize = 0;
        while j < found.len()
            invariant
                i < found.len(),
                j <= found.len(),
                fv == hit_views(found@),
                forall|a: int, b: int|
                    0 <= a < i && 0 <= b < fv.len() && a != b && (#[trigger] fv[a]).1 == (#[trigger] fv[b]).1
                        ==> fv[a].0 < n,
                forall|b: int| 0 <= b < j && b != i && (#[trigger] fv[b]).1 == fv[i as int].1 ==> fv[i as int].0 < n,
            decreases found.len() - j,
        {
            assert(fv[i as int] == found@[i as int]@ && fv[j as int] == found@[j as int]@);
            if i != j && found[i].score == found[j].score && found[i].note_id >= n {
                return false;
            }
            j = j + 1;
        }
        i = i + 1;
    }
    true
}

impl VaultIndex {
    /// The note whose id is `id`, when it sits at position `id`.
    pub fn note(&self, id: usize) -> (r: Option<&KnowledgeNote>)
        ensures
            r == (if id < self.notes.len() && self.notes[id as int].id == id {
                Some(&self.notes[id as int])
            } else {
                None
            }),
    {
        if id < self.notes.len() && self.notes[id].id == id {
            Some(&self.notes[id])
        } else {
            None
        }
    }

    /// The hits of every note for `terms`, in note order.
    fn candidates(&self, terms: &Vec<Vec<char>>) -> (r: Vec<SearchHit>)
        requires
            forall|j: int| 0 <= j < terms@.len() ==> #[trigger] terms@[j]@.len() > 0,
        ensures
            hit_views(r@) == candidate_hits(self.notes@, views(terms@)),
    {
        let ghost tv = views(terms@);
        let mut hits: Vec<SearchHit> = Vec::new();
        let mut i: usize = 0;
        while i < self.notes.len()
            invariant
                i <= self.notes.len(),
                tv == views(terms@),
                hit_views(hits@) == candidate_hits(self.notes@.take(i as int), tv),
                forall|j: int| 0 <= j < terms@.len() ==> #[trigger] terms@[j]@.len() > 0,
            decreases self.notes.len() - i,
        {
            let note = &self.notes[i];
            assert(self.notes@.take(i + 1).drop_last() =~= self.notes@.take(i as int));
            assert(self.notes@.take(i + 1).last() == *note);
            match note_hit(note, terms) {
                Some(h) => {
                    let ghost before = hit_views(hits@);
                    hits.push(h);
                    assert(hit_views(hits@) =~= before.push(h@));
                },
                None => {},
            }
            i = i + 1;
        }
        assert(self.notes@.take(self.notes.len() as int) =~= self.notes@);
        hits
    }

    /// Ranks `found`, then keeps the first `limit`.
    fn rank_hits(&self, found: Vec<SearchHit>, limit: usize) -> (r: Vec<SearchHit>)
        requires
            ties_in_range(hit_views(found@), self.notes@.len()),
        ensures
            hit_views(r@) == (if limit < found@.len() {
                ranked(self.notes@, hit_views(found@)).take(limit as int)
            } else {
                ranked(self.notes@, hit_views(found@))
            }),
    {
        let ghost fv = hit_views(found@);
        let mut hits: Vec<SearchHit> = Vec::new();
        let mut k: usize = 0;
        while k < found.len()
            invariant
                k <= found.len(),
                fv == hit_views(found@),
                ties_in_range(fv, self.notes@.len()),
                hit_views(hits@) == ranked(self.notes@, fv.take(k as int)),
                forall|j: int| 0 <= j < hits@.len() ==> exists|m: int| 0 <= m < k && #[trigger] hits@[j]@ == fv[m],
            decreases found.len() - k,
        {
            assert(fv.take(k + 1).drop_last() =~= fv.take(k as int));
            assert(fv.take(k + 1).last() == found@[k as int]@);
            let h = found[k].clone_hit();
            assert(fv[k as int] == h@);
            assert forall|j: int| 0 <= j < hits@.len() && (#[trigger] hits@[j]).score == h.score implies hits@[j].note_id
                < self.notes.len() && h.note_id < self.notes.len() by {
                let m = choose|m: int| 0 <= m < k && hits@[j]@ == fv[m];
                assert(fv[m].1 == fv[k as int].1);
            }
            let ghost before = hits@;
            let ghost hb = hit_views(hits@);
            insert_ranked(&self.notes, &mut hits, h);
            proof {
                let p = insert_pos(self.notes@, hb, fv[k as int]) as int;
                lemma_insert_pos_props(self.notes@, hb, fv[k as int]);
                assert(hb.len() == before.len());
                assert(hit_views(hits@).len() == hits@.len());
                assert(hit_views(hits@) == hb.insert(p, fv[k as int]));
                assert(hits@.len() == before.len() + 1);
                assert forall|j: int| 0 <= j < hits@.len() implies exists|m: int|
                    0 <= m < k + 1 && #[trigger] hits@[j]@ == fv[m] by {
                    assert(hits@[j]@ == hit_views(hits@)[j]);
                    if j < p {
                        assert(hit_views(hits@)[j] == hb[j]);
                        assert(hb[j] == before[j]@);
                        let m = choose|m: int| 0 <= m < k && #[trigger] before[j]@ == fv[m];
                        assert(hits@[j]@ == fv[m]);
                    } else if j == p {
                        assert(hits@[j]@ == fv[k as int]);
                    } else {
                        assert(hit_views(hits@)[j] == hb[j - 1]);
                        assert(hb[j - 1] == before[j - 1]@);
                        let m = choose|m: int| 0 <= m < k && #[trigger] before[j - 1]@ == fv[m];
                        assert(hits@[j]@ == fv[m]);
                    }
                }
            }
            k = k + 1;
        }
        assert(fv.take(found.len() as int) =~= fv);
        proof {
            lemma_ranked_len(self.notes@, fv);
        }
        hits.truncate(limit);
        hits
    }

    /// Notes matching the query and context, best first, at most `limit`.
    pub fn search(&self, query: &str, context: &[String], limit: usize) -> (r: Vec<SearchHit>)
        requires
            rankable(self.notes@, search_terms(query@, string_views(context@))),
        ensures
            hit_views(r@) == search_result(
                self.notes@,
                search_terms(query@, string_views(context@)),
                limit as nat,
            ),
    {
        let terms = collect_terms(query, context);
        let found = self.candidates(&terms);
        proof {
            lemma_ranked_len(self.notes@, hit_views(found@));
        }
        self.rank_hits(found, limit)
    }

    /// Searches when the hits can be ranked, and answers `None` when they
    /// cannot (two hits share a score and one of them has an id past the
    /// note list).
    pub fn try_search(&self, query: &str, context: &[String], limit: usize) -> (r: Option<Vec<SearchHit>>)
        ensures
            !rankable(self.notes@, search_terms(query@, string_views(context@))) <==> r is None,
            r matches Some(v) ==> hit_views(v@) == search_result(
                self.notes@,
                search_terms(query@, string_views(context@)),
                limit as nat,
            ),
    {
        let terms = collect_terms(query, context);
        let found = self.candidates(&terms);
        if !ties_checked(self.notes.len(), &found) {
            return None;
        }
        proof {
            lemma_ranked_len(self.notes@, hit_views(found@));
        }
        Some(self.rank_hits(found, limit))
    }
}

/// Ranking keeps the number of hits.
proof fn lemma_ranked_len(notes: Seq<KnowledgeNote>, s: Seq<(usize, u32, Seq<char>)>)
    ensures
        ranked(notes, s).len() == s.len(),
    decreases s.len(),
{
    if s.len() > 0 {
        lemma_ranked_len(notes, s.drop_last());
        lemma_insert_pos_props(notes, ranked(notes, s.drop_last()), s.last());
    }
}


proof fn lemma_no_terms_no_hits(notes: Seq<KnowledgeNote>, terms: Seq<Seq<char>>)
    requires
        terms.len() == 0,
    ensures
        candidate_hits(notes, terms) == Seq::<(usize, u32, Seq<char>)>::empty(),
        ranked(notes, candidate_hits(notes, terms)) == Seq::<(usize, u32, Seq<char>)>::empty(),
    decreases notes.len(),
{
    if notes.len() > 0 {
        lemma_no_terms_no_hits(notes.drop_last(), terms);
        let n = notes.last();
        assert(raw_score(
            lowercase(n.title@),
            lowercase(n.relative_path@),
            lowercase(join_space(string_views(n.tags@))),
            lowercase(n.body@),
            terms,
        ) == 0);
    }
}

/// The hit a note yields for the given terms, if any.
fn note_hit(note: &KnowledgeNote, terms: &Vec<Vec<char>>) -> (r: Option<SearchHit>)
    requires
        forall|i: int| 0 <= i < terms@.len() ==> #[trigger] terms@[i]@.len() > 0,
    ensures
        match hit_for(*note, views(terms@)) {
            None => r is None,
            Some(h) => r is Some && r->0@ == h,
        },
{
    let title = lower_chars(note.title.as_str());
    let path = lower_chars(note.relative_path.as_str());
    let joined = join_tags(&note.tags);
    let tags = lower_chars(string_of(&joined).as_str());
    let body = lower_chars(note.body.as_str());
    let ghost tv = views(terms@);
    let mut score: u32 = 0;
    let mut k: usize = 0;
    while k < terms.len()
        invariant
            k <= terms.len(),
            tv == views(terms@),
            score == wrap(raw_score(title@, path@, tags@, body@, tv.take(k as int))),
            forall|i: int| 0 <= i < terms@.len() ==> #[trigger] terms@[i]@.len() > 0,
        decreases terms.len() - k,
    {
        let t = &terms[k];
        assert(tv.take(k + 1).drop_last() =~= tv.take(k as int));
        assert(tv.take(k + 1).last() == t@);
        let p = points_wrapping(
            count_matches_exec(&title, t),
            count_matches_exec(&path, t),
            count_matches_exec(&tags, t),
            count_matches_exec(&body, t),
        );
        proof {
            vstd::arithmetic::div_mod::lemma_add_mod_noop(
                raw_score(title@, path@, tags@, body@, tv.take(k as int)) as int,
                term_points(title@, path@, tags@, body@, t@) as int,
                0x1_0000_0000,
            );
        }
        score = add_wrapping(score, p);
        k = k + 1;
    }
    assert(tv.take(terms.len() as int) =~= tv);
    if score == 0 {
        return None;
    }
    let total = add_wrapping(score, note.authority.weight());
    Some(SearchHit { note_id: note.id, score: total, snippet: best_snippet(note, terms) })
}


proof fn lemma_terms_among_are_terms(pieces: Seq<Seq<char>>)
    ensures
        forall|i: int| 0 <= i < terms_among(pieces).len() ==> is_term(#[trigger] terms_among(pieces)[i]),
    decreases pieces.len(),
{
    if pieces.len() > 0 {
        lemma_terms_among_are_terms(pieces.drop_last());
        let rest = terms_among(pieces.drop_last());
        let w = lowercase(pieces.last());
        if is_term(w) {
            assert forall|i: int| 0 <= i < rest.push(w).len() implies is_term(
                #[trigger] rest.push(w)[i],
            ) by {
                if i < rest.len() {
                    assert(rest.push(w)[i] == rest[i]);
                }
            }
        }
    }
}

proof fn lemma_term_nonempty(w: Seq<char>)
    requires
        is_term(w),
    ensures
        w.len() > 0,
{
    if w.len() == 0 {
        assert(vstd::utf8::encode_utf8(w) == Seq::<u8>::empty());
    }
}

/// Appends the term strings of one text as character vectors.
fn append_terms(all: &mut Vec<Vec<char>>, text: &str)
    requires
        forall|i: int| 0 <= i < old(all)@.len() ==> #[trigger] old(all)@[i]@.len() > 0,
    ensures
        views(final(all)@) == views(old(all)@) + terms_of(text@),
        forall|i: int| 0 <= i < final(all)@.len() ==> #[trigger] final(all)@[i]@.len() > 0,
{
    let terms = meaningful_terms(text);
    proof {
        lemma_terms_among_are_terms(words(text@));
    }
    let ghost base = views(all@);
    let mut k: usize = 0;
    while k < terms.len()
        invariant
            k <= terms.len(),
            string_views(terms@) == terms_of(text@),
            views(all@) == base + terms_of(text@).take(k as int),
            forall|i: int| 0 <= i < all@.len() ==> #[trigger] all@[i]@.len() > 0,
            forall|i: int| 0 <= i < terms_among(words(text@)).len() ==> is_term(
                #[trigger] terms_among(words(text@))[i],
            ),
        decreases terms.len() - k,
    {
        let c = chars_of(terms[k].as_str());
        assert(c@ == terms_of(text@)[k as int]);
        assert(is_term(terms_among(words(text@))[k as int]));
        proof {
            lemma_term_nonempty(c@);
        }
        let ghost before = views(all@);
        all.push(c);
        assert(views(all@) =~= before.push(c@));
        assert(terms_of(text@).take(k + 1) =~= terms_of(text@).take(k as int).push(c@));
        k = k + 1;
    }
    assert(terms_of(text@).take(terms.len() as int) =~= terms_of(text@));
}

/// The distinct terms of a query and its context chips, as character vectors.
fn collect_terms(query: &str, context: &[String]) -> (r: Vec<Vec<char>>)
    ensures
        views(r@) == search_terms(query@, string_views(context@)),
        forall|i: int| 0 <= i < r@.len() ==> #[trigger] r@[i]@.len() > 0,
{
    let mut all: Vec<Vec<char>> = Vec::new();
    append_terms(&mut all, query);
    let ghost ctx = string_views(context@);
    let mut k: usize = 0;
    while k < context.len()
        invariant
            k <= context.len(),
            ctx == string_views(context@),
            views(all@) == terms_of(query@) + context_terms(ctx.take(k as int)),
            forall|i: int| 0 <= i < all@.len() ==> #[trigger] all@[i]@.len() > 0,
        decreases context.len() - k,
    {
        assert(ctx.take(k + 1).drop_last() =~= ctx.take(k as int));
        assert(ctx.take(k + 1).last() == context@[k as int]@);
        append_terms(&mut all, context[k].as_str());
        assert(views(all@) =~= terms_of(query@) + context_terms(ctx.take(k + 1)));
        k = k + 1;
    }
    assert(ctx.take(context.len() as int) =~= ctx);
    let ghost av = views(all@);
    let mut out: Vec<Vec<char>> = Vec::new();
    let mut i: usize = 0;
    while i < all.len()
        invariant
            i <= all.len(),
            av == views(all@),
            views(out@) == distinct(av.take(i as int)),
            forall|j: int| 0 <= j < all@.len() ==> #[trigger] all@[j]@.len() > 0,
            forall|j: int| 0 <= j < out@.len() ==> #[trigger] out@[j]@.len() > 0,
        decreases all.len() - i,
    {
        assert(av.take(i + 1).drop_last() =~= av.take(i as int));
        assert(av.take(i + 1).last() == all@[i as int]@);
        if !seq_member(&out, &all[i]) {
            let ghost before = views(out@);
            out.push(all[i].clone());
            assert(views(out@) =~= before.push(all@[i as int]@));
        }
        i = i + 1;
    }
    assert(av.take(all.len() as int) =~= av);
    out
}

/// Text order is a strict order: never both ways, and transitive.
proof fn lemma_text_order(a: Seq<char>, b: Seq<char>, c: Seq<char>)
    ensures
        !(text_precedes(a, b) && text_precedes(b, a)),
        text_precedes(a, b) && text_precedes(b, c) ==> text_precedes(a, c),
    decreases a.len(),
{
    if a.len() > 0 && b.len() > 0 && c.len() > 0 {
        lemma_text_order(a.drop_first(), b.drop_first(), c.drop_first());
    } else if a.len() > 0 && b.len() > 0 {
        lemma_text_order(a.drop_first(), b.drop_first(), c);
    }
}

/// Ranking ahead is a strict order on hits.
proof fn lemma_rank_order(
    notes: Seq<KnowledgeNote>,
    a: (usize, u32, Seq<char>),
    b: (usize, u32, Seq<char>),
    c: (usize, u32, Seq<char>),
)
    ensures
        !(ranks_before(notes, a, b) && ranks_before(notes, b, a)),
        ranks_before(notes, a, b) && ranks_before(notes, b, c) ==> ranks_before(notes, a, c),
{
    lemma_text_order(notes[a.0 as int].title@, notes[b.0 as int].title@, notes[c.0 as int].title@);
    lemma_text_order(notes[b.0 as int].title@, notes[a.0 as int].title@, notes[c.0 as int].title@);
}

pub open spec fn in_rank_order(notes: Seq<KnowledgeNote>, r: Seq<(usize, u32, Seq<char>)>) -> bool {
    forall|i: int, j: int| 0 <= i < j < r.len() ==> !ranks_before(notes, #[trigger] r[j], #[trigger] r[i])
}

proof fn lemma_insert_pos_props(notes: Seq<KnowledgeNote>, s: Seq<(usize, u32, Seq<char>)>, h: (usize, u32, Seq<char>))
    ensures
        insert_pos(notes, s, h) <= s.len(),
        forall|j: int| 0 <= j < insert_pos(notes, s, h) ==> !ranks_before(notes, h, #[trigger] s[j]),
        insert_pos(notes, s, h) < s.len() ==> ranks_before(notes, h, s[insert_pos(notes, s, h) as int]),
    decreases s.len(),
{
    if s.len() > 0 && !ranks_before(notes, h, s[0]) {
        let t = s.drop_first();
        lemma_insert_pos_props(notes, t, h);
        assert forall|j: int| 0 <= j < insert_pos(notes, s, h) implies !ranks_before(notes, h, #[trigger] s[j]) by {
            if j > 0 {
                assert(s[j] == t[j - 1]);
            }
        }
        if insert_pos(notes, s, h) < s.len() {
            assert(s[insert_pos(notes, s, h) as int] == t[insert_pos(notes, t, h) as int]);
        }
    }
}

/// Ranking puts hits in order: no hit ranks ahead of one listed before it.
pub proof fn lemma_ranked_in_order(notes: Seq<KnowledgeNote>, s: Seq<(usize, u32, Seq<char>)>)
    ensures
        in_rank_order(notes, ranked(notes, s)),
    decreases s.len(),
{
    if s.len() > 0 {
        let r = ranked(notes, s.drop_last());
        lemma_ranked_in_order(notes, s.drop_last());
        let h = s.last();
        lemma_insert_pos_props(notes, r, h);
        let p = insert_pos(notes, r, h) as int;
        let n = r.insert(p, h);
        assert forall|i: int, j: int| 0 <= i < j < n.len() implies !ranks_before(notes, #[trigger] n[j], #[trigger] n[i]) by {
            if j < p {
                assert(n[i] == r[i] && n[j] == r[j]);
            } else if j == p {
                assert(n[i] == r[i]);
                lemma_rank_order(notes, h, r[i], h);
            } else if i == p {
                assert(n[j] == r[j - 1]);
                lemma_rank_order(notes, r[j - 1], h, r[p]);
                lemma_rank_order(notes, h, r[p], h);
                if j - 1 > p {
                    assert(!ranks_before(notes, r[j - 1], r[p]));
                }
            } else if i < p {
                assert(n[i] == r[i] && n[j] == r[j - 1]);
            } else {
                assert(n[i] == r[i - 1] && n[j] == r[j - 1]);
            }
        }
    }
}

/// Search results come in rank order: by score, then source authority, then
/// title.
pub proof fn lemma_search_in_rank_order(notes: Seq<KnowledgeNote>, terms: Seq<Seq<char>>, limit: nat)
    ensures
        in_rank_order(notes, search_result(notes, terms, limit)),
{
    let r = ranked(notes, candidate_hits(notes, terms));
    lemma_ranked_in_order(notes, candidate_hits(notes, terms));
    if limit < r.len() {
        let t = r.take(limit as int);
        assert forall|i: int, j: int| 0 <= i < j < t.len() implies !ranks_before(notes, #[trigger] t[j], #[trigger] t[i]) by {
            assert(t[i] == r[i] && t[j] == r[j]);
        }
    }
}


// ---------------------------------------------------------------------------
// Laws of the query terms
// ---------------------------------------------------------------------------

/// The query followed by each chip, every piece after `sep`.
pub open spec fn joined_query(query: Seq<char>, chips: Seq<Seq<char>>, sep: char) -> Seq<char>
    decreases chips.len(),
{
    if chips.len() == 0 {
        query
    } else {
        joined_query(query, chips.drop_last(), sep) + seq![sep] + chips.last()
    }
}

proof fn lemma_words_state_join(a: Seq<char>, b: Seq<char>, sep: char)
    requires
        !alphanumeric(sep),
    ensures
        words_state(a + seq![sep] + b) == (words(a) + words_state(b).0, words_state(b).1),
    decreases b.len(),
{
    if b.len() == 0 {
        assert(a + seq![sep] + b =~= a.push(sep));
        assert(a.push(sep).drop_last() =~= a);
        assert(words(a) + Seq::<Seq<char>>::empty() =~= words(a));
    } else {
        let b0 = b.drop_last();
        lemma_words_state_join(a, b0, sep);
        assert((a + seq![sep] + b).drop_last() =~= a + seq![sep] + b0);
        assert((a + seq![sep] + b).last() == b.last());
        let (d, o) = words_state(b0);
        if !alphanumeric(b.last()) {
            assert((words(a) + d).push(o) =~= words(a) + d.push(o));
        }
    }
}

proof fn lemma_terms_among_concat(p: Seq<Seq<char>>, q: Seq<Seq<char>>)
    ensures
        terms_among(p + q) == terms_among(p) + terms_among(q),
    decreases q.len(),
{
    if q.len() == 0 {
        assert(p + q =~= p);
        assert(terms_among(p) + terms_among(q) =~= terms_among(p));
    } else {
        lemma_terms_among_concat(p, q.drop_last());
        assert((p + q).drop_last() =~= p + q.drop_last());
        assert((p + q).last() == q.last());
        let w = lowercase(q.last());
        if is_term(w) {
            assert((terms_among(p) + terms_among(q.drop_last())).push(w) =~= terms_among(p) + terms_among(
                q.drop_last(),
            ).push(w));
        }
    }
}

/// Joining two texts with a character that is not alphanumeric joins their
/// terms.
pub proof fn lemma_terms_of_join(a: Seq<char>, b: Seq<char>, sep: char)
    requires
        !alphanumeric(sep),
    ensures
        terms_of(a + seq![sep] + b) == terms_of(a) + terms_of(b),
{
    lemma_words_state_join(a, b, sep);
    let (d, o) = words_state(b);
    assert(words(a + seq![sep] + b) =~= words(a) + words(b));
    lemma_terms_among_concat(words(a), words(b));
}

proof fn lemma_joined_terms(query: Seq<char>, chips: Seq<Seq<char>>, sep: char)
    requires
        !alphanumeric(sep),
    ensures
        terms_of(joined_query(query, chips, sep)) == terms_of(query) + context_terms(chips),
    decreases chips.len(),
{
    if chips.len() == 0 {
        assert(terms_of(query) + context_terms(chips) =~= terms_of(query));
    } else {
        lemma_joined_terms(query, chips.drop_last(), sep);
        lemma_terms_of_join(joined_query(query, chips.drop_last(), sep), chips.last(), sep);
        assert(terms_of(query) + context_terms(chips.drop_last()) + terms_of(chips.last()) =~= terms_of(query)
            + (context_terms(chips.drop_last()) + terms_of(chips.last())));
    }
}

/// Context chips search exactly as if they were typed after the query,
/// separated by any character that is not alphanumeric (a space, say): the
/// same terms, so the same hits in the same order, and ranking possible for
/// both or for neither.
pub proof fn lemma_chips_search_as_query(
    notes: Seq<KnowledgeNote>,
    query: Seq<char>,
    chips: Seq<Seq<char>>,
    sep: char,
    limit: nat,
)
    requires
        !alphanumeric(sep),
    ensures
        search_terms(query, chips) == search_terms(joined_query(query, chips, sep), seq![]),
        search_result(notes, search_terms(query, chips), limit) == search_result(
            notes,
            search_terms(joined_query(query, chips, sep), seq![]),
            limit,
        ),
        rankable(notes, search_terms(query, chips)) == rankable(
            notes,
            search_terms(joined_query(query, chips, sep), seq![]),
        ),
{
    lemma_joined_terms(query, chips, sep);
    let e = Seq::<Seq<char>>::empty();
    assert(context_terms(e) =~= e);
    assert(seq![] =~= e);
    assert(terms_of(joined_query(query, chips, sep)) + context_terms(e) =~= terms_of(query) + context_terms(
        chips,
    ));
}

/// An element is among the distinct elements exactly when it occurs at all.
proof fn lemma_distinct_contains(ts: Seq<Seq<char>>, x: Seq<char>)
    ensures
        distinct(ts).contains(x) == ts.contains(x),
    decreases ts.len(),
{
    if ts.len() > 0 {
        lemma_distinct_contains(ts.drop_last(), x);
        let r = distinct(ts.drop_last());
        if ts.contains(x) && x != ts.last() {
            let i = choose|i: int| 0 <= i < ts.len() && ts[i] == x;
            assert(ts.drop_last()[i] == x);
        }
        if ts.drop_last().contains(x) {
            let i = choose|i: int| 0 <= i < ts.drop_last().len() && ts.drop_last()[i] == x;
            assert(ts[i] == x);
        }
        if x == ts.last() {
            assert(ts[ts.len() - 1] == x);
        }
        if !r.contains(ts.last()) {
            if r.push(ts.last()).contains(x) && x != ts.last() {
                let i = choose|i: int| 0 <= i < r.push(ts.last()).len() && r.push(ts.last())[i] == x;
                assert(r[i] == x);
            }
            if r.contains(x) {
                let i = choose|i: int| 0 <= i < r.len() && r[i] == x;
                assert(r.push(ts.last())[i] == x);
            }
            assert(r.push(ts.last())[r.len() as int] == ts.last());
        }
    }
}

/// Appending only elements already present leaves the distinct elements as
/// they are.
proof fn lemma_distinct_absorbs(s: Seq<Seq<char>>, u: Seq<Seq<char>>)
    requires
        forall|i: int| 0 <= i < u.len() ==> s.contains(#[trigger] u[i]),
    ensures
        distinct(s + u) == distinct(s),
    decreases u.len(),
{
    if u.len() == 0 {
        assert(s + u =~= s);
    } else {
        let u0 = u.drop_last();
        assert forall|i: int| 0 <= i < u0.len() implies s.contains(#[trigger] u0[i]) by {
            assert(u0[i] == u[i]);
        }
        lemma_distinct_absorbs(s, u0);
        assert((s + u).drop_last() =~= s + u0);
        assert((s + u).last() == u[u.len() - 1]);
        lemma_distinct_contains(s, u[u.len() - 1]);
    }
}

/// Distinct elements of two sequences with the same distinct elements stay
/// the same after the same continuation.
proof fn lemma_distinct_continue(s1: Seq<Seq<char>>, s2: Seq<Seq<char>>, c: Seq<Seq<char>>)
    requires
        distinct(s1) == distinct(s2),
    ensures
        distinct(s1 + c) == distinct(s2 + c),
    decreases c.len(),
{
    if c.len() == 0 {
        assert(s1 + c =~= s1);
        assert(s2 + c =~= s2);
    } else {
        lemma_distinct_continue(s1, s2, c.drop_last());
        assert((s1 + c).drop_last() =~= s1 + c.drop_last());
        assert((s2 + c).drop_last() =~= s2 + c.drop_last());
        assert((s1 + c).last() == c.last());
        assert((s2 + c).last() == c.last());
    }
}

/// Repeating the query's words does not change the search: the query typed
/// twice, with any non-alphanumeric character between, gives the same terms
/// and so the same hits in the same order.
pub proof fn lemma_repeated_query(
    notes: Seq<KnowledgeNote>,
    query: Seq<char>,
    chips: Seq<Seq<char>>,
    sep: char,
    limit: nat,
)
    requires
        !alphanumeric(sep),
    ensures
        search_terms(query + seq![sep] + query, chips) == search_terms(query, chips),
        search_result(notes, search_terms(query + seq![sep] + query, chips), limit) == search_result(
            notes,
            search_terms(query, chips),
            limit,
        ),
        rankable(notes, search_terms(query + seq![sep] + query, chips)) == rankable(
            notes,
            search_terms(query, chips),
        ),
{
    lemma_terms_of_join(query, query, sep);
    let t = terms_of(query);
    assert forall|i: int| 0 <= i < t.len() implies t.contains(#[trigger] t[i]) by {}
    lemma_distinct_absorbs(t, t);
    lemma_distinct_continue(t + t, t, context_terms(chips));
}


/// A body line can be a snippet: cleaned, it has at least 24 bytes and
/// matches at least one term.
pub open spec fn snippet_eligible(line: Seq<char>, terms: Seq<Seq<char>>) -> bool {
    byte_len(cleaned(line)) >= 24 && matching_terms(lowercase(cleaned(line)), terms) > 0
}

/// How many terms a body line matches once cleaned.
pub open spec fn line_matches(line: Seq<char>, terms: Seq<Seq<char>>) -> nat {
    matching_terms(lowercase(cleaned(line)), terms)
}

/// The line picked for a snippet is an eligible line, cleaned, and no
/// eligible line matches more terms (among equals the last one wins, no later
/// eligible line matches as many); nothing is picked only when no line is
/// eligible.
pub proof fn lemma_snippet_is_best_line(ls: Seq<Seq<char>>, terms: Seq<Seq<char>>)
    ensures
        snippet_pick(ls, terms) is None <==> forall|k: int| 0 <= k < ls.len() ==> !snippet_eligible(#[trigger] ls[k], terms),
        snippet_pick(ls, terms) matches Some((m, c)) ==> exists|k: int|
            0 <= k < ls.len() && snippet_eligible(#[trigger] ls[k], terms) && c == cleaned(ls[k]) && m == line_matches(
                ls[k],
                terms,
            ) && (forall|j: int|
                0 <= j < ls.len() && snippet_eligible(#[trigger] ls[j], terms) ==> line_matches(ls[j], terms) <= m)
                && forall|j: int|
                k < j < ls.len() && snippet_eligible(#[trigger] ls[j], terms) ==> line_matches(ls[j], terms) < m,
    decreases ls.len(),
{
    if ls.len() > 0 {
        let t = ls.drop_last();
        lemma_snippet_is_best_line(t, terms);
        let last = ls[ls.len() - 1];
        assert(ls.last() == last);
        assert forall|j: int| 0 <= j < t.len() implies #[trigger] t[j] == ls[j] by {}
        match snippet_pick(t, terms) {
            None => {
                assert forall|j: int| 0 <= j < t.len() implies !snippet_eligible(#[trigger] ls[j], terms) by {
                    assert(t[j] == ls[j]);
                }
            },
            Some((pm, pc)) => {
                let k = choose|k: int|
                    0 <= k < t.len() && snippet_eligible(#[trigger] t[k], terms) && pc == cleaned(t[k]) && pm
                        == line_matches(t[k], terms) && (forall|j: int|
                        0 <= j < t.len() && snippet_eligible(#[trigger] t[j], terms) ==> line_matches(t[j], terms) <= pm)
                        && forall|j: int|
                        k < j < t.len() && snippet_eligible(#[trigger] t[j], terms) ==> line_matches(t[j], terms) < pm;
                assert(ls[k] == t[k]);
                assert forall|j: int| k < j < t.len() && snippet_eligible(#[trigger] ls[j], terms) implies line_matches(
                    ls[j],
                    terms,
                ) < pm by {
                    assert(t[j] == ls[j]);
                }
                assert forall|j: int| 0 <= j < t.len() && snippet_eligible(#[trigger] ls[j], terms) implies line_matches(
                    ls[j],
                    terms,
                ) <= pm by {
                    assert(t[j] == ls[j]);
                }
            },
        }
    }
}

/// The snippet of a note is its best line: one of its eligible lines, cut to
/// 260 characters, that no other eligible line beats on matching terms; only
/// a note without eligible lines shows its excerpt.
pub proof fn lemma_snippet_of_note(note: KnowledgeNote, terms: Seq<Seq<char>>)
    ensures
        (forall|k: int| 0 <= k < lines(note.body@).len() ==> !snippet_eligible(#[trigger] lines(note.body@)[k], terms))
            ==> snippet_of(note, terms) == truncated(note.excerpt@, 260),
        (exists|k: int| 0 <= k < lines(note.body@).len() && snippet_eligible(#[trigger] lines(note.body@)[k], terms))
            ==> exists|k: int|
            0 <= k < lines(note.body@).len() && snippet_eligible(#[trigger] lines(note.body@)[k], terms)
                && snippet_of(note, terms) == truncated(cleaned(lines(note.body@)[k]), 260) && forall|j: int|
                0 <= j < lines(note.body@).len() && snippet_eligible(#[trigger] lines(note.body@)[j], terms)
                    ==> line_matches(lines(note.body@)[j], terms) <= line_matches(lines(note.body@)[k], terms),
{
    lemma_snippet_is_best_line(lines(note.body@), terms);
}

} // verus!
