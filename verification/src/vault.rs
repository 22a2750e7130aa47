//! Turning the Markdown files of a vault into knowledge notes. Reading the
//! files is left to the caller; everything decided from their text is here.
use vstd::prelude::*;
use vstd::string::StringExecFns;
use crate::text::{
    chars_of, contains, contains_seq, has_prefix, lines, lines_exec, lowercase, same_chars,
    starts_with, string_of, to_lower, trim, trim_exec, views,
};
use crate::knowledge::{
    cleaned, clean_markdown, string_views, truncated, truncate, CanonState, KnowledgeNote,
    SourceAuthority, VaultIndex,
};
use std::path::PathBuf;

verus! {

broadcast use vstd::string::group_string_axioms;

/// Provenance decided from a note's vault-relative path and its body markers.
pub open spec fn authority_of(path: Seq<char>, body: Seq<char>) -> SourceAuthority {
    if has_prefix(path, "94 - Canon Synthesis/"@) {
        SourceAuthority::CanonSynthesis
    } else if contains_seq(body, "[USER-CORRECTED]"@) {
        SourceAuthority::UserCorrected
    } else if contains_seq(body, "[USER-STATED]"@) {
        SourceAuthority::UserStated
    } else if contains_seq(body, "[RECOVERED-NONVERBATIM]"@) || contains_seq(
        body,
        "[RECOVERED-UNCERTAIN]"@,
    ) {
        SourceAuthority::RecoveredUserContext
    } else if contains_seq(body, "[STRUCTURED-VAULT]"@) || has_prefix(path, "0"@) {
        SourceAuthority::StructuredVault
    } else if contains_seq(body, "[ASSISTANT-SYNTHESIS]"@) {
        SourceAuthority::AssistantSynthesis
    } else if contains_seq(body, "[ASSISTANT-RECONSTRUCTION]"@) {
        SourceAuthority::AssistantReconstruction
    } else {
        SourceAuthority::Archive
    }
}

fn body_has(body: &Vec<char>, marker: &str) -> (r: bool)
    ensures
        r == contains_seq(body@, marker@),
{
    let m = chars_of(marker);
    contains(body, &m)
}

fn path_has_prefix(path: &Vec<char>, prefix: &str) -> (r: bool)
    ensures
        r == has_prefix(path@, prefix@),
{
    let p = chars_of(prefix);
    starts_with(path, &p)
}

pub fn authority_for(relative_path: &str, body: &str) -> (r: SourceAuthority)
    ensures
        r == authority_of(relative_path@, body@),
{
    let path = chars_of(relative_path);
    let text = chars_of(body);
    if path_has_prefix(&path, "94 - Canon Synthesis/") {
        SourceAuthority::CanonSynthesis
    } else if body_has(&text, "[USER-CORRECTED]") {
        SourceAuthority::UserCorrected
    } else if body_has(&text, "[USER-STATED]") {
        SourceAuthority::UserStated
    } else if body_has(&text, "[RECOVERED-NONVERBATIM]") || body_has(&text, "[RECOVERED-UNCERTAIN]") {
        SourceAuthority::RecoveredUserContext
    } else if body_has(&text, "[STRUCTURED-VAULT]") || path_has_prefix(&path, "0") {
        SourceAuthority::StructuredVault
    } else if body_has(&text, "[ASSISTANT-SYNTHESIS]") {
        SourceAuthority::AssistantSynthesis
    } else if body_has(&text, "[ASSISTANT-RECONSTRUCTION]") {
        SourceAuthority::AssistantReconstruction
    } else {
        SourceAuthority::Archive
    }
}

/// Canon state decided from the frontmatter status (lowercased), the path and
/// the body.
pub open spec fn canon_state_of(status: Seq<char>, path: Seq<char>, body: Seq<char>) -> CanonState {
    let s = lowercase(status);
    if contains_seq(body, "[UNRESOLVED]"@) || contains_seq(s, "unresolved"@) {
        CanonState::Unresolved
    } else if contains_seq(s, "contradiction"@) || contains_seq(lowercase(path), "conflict"@) {
        CanonState::Contradiction
    } else if has_prefix(path, "94 - Canon Synthesis/"@) || contains_seq(s, "active-canon"@)
        || contains_seq(s, "current-working-canon"@) {
        CanonState::Canon
    } else if contains_seq(s, "working"@) || contains_seq(s, "mixed"@) {
        CanonState::Working
    } else {
        CanonState::Archive
    }
}

/// The status text, or the empty text when there is none.
pub open spec fn status_text(status: Option<&str>) -> Seq<char> {
    match status {
        Some(s) => s@,
        None => Seq::empty(),
    }
}

pub fn canon_state_for(status: Option<&str>, relative_path: &str, body: &str) -> (r: CanonState)
    ensures
        r == canon_state_of(status_text(status), relative_path@, body@),
{
    let raw = match status {
        Some(s) => s,
        None => "",
    };
    proof {
        reveal_strlit("");
        if status is None {
            assert(raw@ =~= Seq::<char>::empty());
        }
    }
    let s = chars_of(to_lower(raw).as_str());
    let path = chars_of(relative_path);
    let lower_path = chars_of(to_lower(relative_path).as_str());
    let text = chars_of(body);
    if body_has(&text, "[UNRESOLVED]") || body_has(&s, "unresolved") {
        CanonState::Unresolved
    } else if body_has(&s, "contradiction") || body_has(&lower_path, "conflict") {
        CanonState::Contradiction
    } else if path_has_prefix(&path, "94 - Canon Synthesis/") || body_has(&s, "active-canon")
        || body_has(&s, "current-working-canon") {
        CanonState::Canon
    } else if body_has(&s, "working") || body_has(&s, "mixed") {
        CanonState::Working
    } else {
        CanonState::Archive
    }
}


/// Status and tags from a note's YAML frontmatter.
#[derive(Debug)]
pub struct Frontmatter {
    pub status: Option<String>,
    pub tags: Vec<String>,
}

/// Reading state over frontmatter lines: status, tags, whether a `tags:` list
/// is open, and whether the closing `---` was seen.
pub type FrontmatterState = (Option<Seq<char>>, Seq<Seq<char>>, bool, bool);

pub open spec fn frontmatter_step(st: FrontmatterState, line: Seq<char>) -> FrontmatterState {
    let (status, tags, reading, closed) = st;
    if closed {
        st
    } else if line == "---"@ {
        (status, tags, reading, true)
    } else if has_prefix(line, "status:"@) {
        (Some(trim(line.skip(7))), tags, false, false)
    } else if line == "tags:"@ {
        (status, tags, true, false)
    } else if reading {
        let t = trim(line);
        if has_prefix(t, "- "@) {
            (status, tags.push(trim(t.skip(2))), true, false)
        } else if !has_prefix(line, " "@) {
            (status, tags, false, false)
        } else {
            st
        }
    } else {
        st
    }
}

pub open spec fn frontmatter_fold(ls: Seq<Seq<char>>) -> FrontmatterState
    decreases ls.len(),
{
    if ls.len() == 0 {
        (None, seq![], false, false)
    } else {
        frontmatter_step(frontmatter_fold(ls.drop_last()), ls.last())
    }
}

/// Frontmatter of a body: nothing unless the first line is `---`; then the
/// lines up to the next `---`.
pub open spec fn frontmatter_of(body: Seq<char>) -> (Option<Seq<char>>, Seq<Seq<char>>) {
    let ls = lines(body);
    if ls.len() == 0 || ls[0] != "---"@ {
        (None, seq![])
    } else {
        let st = frontmatter_fold(ls.skip(1));
        (st.0, st.1)
    }
}

pub open spec fn opt_string_view(o: Option<String>) -> Option<Seq<char>> {
    match o {
        Some(s) => Some(s@),
        None => None,
    }
}

fn skip_chars(v: &Vec<char>, n: usize) -> (r: Vec<char>)
    requires
        n <= v.len(),
    ensures
        r@ == v@.skip(n as int),
{
    let mut r: Vec<char> = Vec::new();
    let mut k = n;
    while k < v.len()
        invariant
            n <= k <= v.len(),
            r@ == v@.subrange(n as int, k as int),
        decreases v.len() - k,
    {
        r.push(v[k]);
        assert(v@.subrange(n as int, k + 1) =~= v@.subrange(n as int, k as int).push(v@[k as int]));
        k = k + 1;
    }
    r
}

fn equals_text(v: &Vec<char>, text: &str) -> (r: bool)
    ensures
        r == (v@ == text@),
{
    let t = chars_of(text);
    same_chars(v, &t)
}

impl Frontmatter {
    pub fn parse(body: &str) -> (r: Frontmatter)
        ensures
            (opt_string_view(r.status), string_views(r.tags@)) == frontmatter_of(body@),
    {
        let text = chars_of(body);
        let ls = lines_exec(&text);
        if ls.len() == 0 || !equals_text(&ls[0], "---") {
            let r = Frontmatter { status: None, tags: Vec::new() };
            assert(string_views(r.tags@) =~= Seq::<Seq<char>>::empty());
            return r;
        }
        let ghost rest = views(ls@).skip(1);
        let mut status: Option<String> = None;
        let mut tags: Vec<String> = Vec::new();
        let mut reading = false;
        let mut closed = false;
        let mut i: usize = 1;
        proof {
            reveal_strlit("status:");
            reveal_strlit("- ");
            reveal_strlit(" ");
        }
        while i < ls.len()
            invariant
                1 <= i <= ls.len(),
                rest == views(ls@).skip(1),
                frontmatter_fold(rest.take(i - 1)) == (opt_string_view(status), string_views(tags@), reading, closed),
            decreases ls.len() - i,
        {
            assert(rest.take(i as int).drop_last() =~= rest.take(i - 1));
            assert(rest.take(i as int).last() == ls@[i as int]@);
            let line = &ls[i];
            proof {
                reveal_strlit("status:");
                reveal_strlit("- ");
                reveal_strlit(" ");
            }
            if closed {
            } else if equals_text(line, "---") {
                closed = true;
            } else if path_has_prefix(line, "status:") {
                let value = trim_exec(&skip_chars(line, 7));
                status = Some(string_of(&value));
                reading = false;
            } else if equals_text(line, "tags:") {
                reading = true;
            } else if reading {
                let t = trim_exec(line);
                if path_has_prefix(&t, "- ") {
                    let tag = trim_exec(&skip_chars(&t, 2));
                    let ghost before = string_views(tags@);
                    tags.push(string_of(&tag));
                    assert(string_views(tags@) =~= before.push(tag@));
                } else if !path_has_prefix(line, " ") {
                    reading = false;
                }
            }
            proof {
                if !closed && has_prefix(line@, "status:"@) {
                    assert(status is Some);
                }
            }
            i = i + 1;
        }
        assert(rest.take(ls.len() - 1) =~= rest);
        Frontmatter { status, tags }
    }
}


/// Rest of the first line that starts with `# `.
pub open spec fn first_heading(ls: Seq<Seq<char>>) -> Option<Seq<char>>
    decreases ls.len(),
{
    if ls.len() == 0 {
        None
    } else if has_prefix(ls[0], "# "@) {
        Some(ls[0].skip(2))
    } else {
        first_heading(ls.drop_first())
    }
}

/// A note's title: its first `# ` heading when that is not blank, else the
/// file stem, else a placeholder.
pub open spec fn title_of(body: Seq<char>, stem: Option<Seq<char>>) -> Seq<char> {
    let fallback = match stem {
        Some(s) => s,
        None => "Untitled note"@,
    };
    match first_heading(lines(body)) {
        Some(h) => if trim(h).len() > 0 {
            trim(h)
        } else {
            fallback
        },
        None => fallback,
    }
}

pub open spec fn is_excerpt_line(c: Seq<char>) -> bool {
    crate::text::byte_len(c) >= 32 && !has_prefix(c, "type:"@) && !has_prefix(c, "status:"@)
}

/// First cleaned line fit to be an excerpt.
pub open spec fn first_excerpt(ls: Seq<Seq<char>>) -> Option<Seq<char>>
    decreases ls.len(),
{
    if ls.len() == 0 {
        None
    } else if is_excerpt_line(cleaned(ls[0])) {
        Some(cleaned(ls[0]))
    } else {
        first_excerpt(ls.drop_first())
    }
}

pub open spec fn excerpt_of(body: Seq<char>) -> Seq<char> {
    match first_excerpt(lines(body)) {
        Some(c) => truncated(c, 180),
        None => "No excerpt available."@,
    }
}

pub open spec fn status_or_empty(status: Option<Seq<char>>) -> Seq<char> {
    match status {
        Some(s) => s,
        None => Seq::empty(),
    }
}

/// `note` is what the file `(relative, stem, path, body)` at position `id`
/// yields.
pub open spec fn note_from(
    note: KnowledgeNote,
    id: usize,
    relative: Seq<char>,
    stem: Option<Seq<char>>,
    path: PathBuf,
    body: Seq<char>,
) -> bool {
    &&& note.id == id
    &&& note.title@ == title_of(body, stem)
    &&& note.relative_path@ == relative
    &&& note.absolute_path == path
    &&& note.excerpt@ == excerpt_of(body)
    &&& note.body@ == body
    &&& string_views(note.tags@) == frontmatter_of(body).1
    &&& note.canon_state == canon_state_of(status_or_empty(frontmatter_of(body).0), relative, body)
    &&& note.authority == authority_of(relative, body)
}

fn find_heading(ls: &Vec<Vec<char>>) -> (r: Option<Vec<char>>)
    ensures
        match first_heading(views(ls@)) {
            Some(h) => r is Some && r->0@ == h,
            None => r is None,
        },
{
    let mut i: usize = 0;
    assert(views(ls@).skip(0) =~= views(ls@));
    proof {
        reveal_strlit("# ");
    }
    while i < ls.len()
        invariant
            i <= ls.len(),
            first_heading(views(ls@)) == first_heading(views(ls@).skip(i as int)),
            "# "@.len() == 2,
        decreases ls.len() - i,
    {
        assert(views(ls@).skip(i as int)[0] == ls@[i as int]@);
        if path_has_prefix(&ls[i], "# ") {
            return Some(skip_chars(&ls[i], 2));
        }
        assert(views(ls@).skip(i as int).drop_first() =~= views(ls@).skip(i + 1));
        i = i + 1;
    }
    assert(views(ls@).skip(i as int) =~= Seq::<Seq<char>>::empty());
    None
}

fn find_excerpt(ls: &Vec<Vec<char>>) -> (r: Option<Vec<char>>)
    ensures
        match first_excerpt(views(ls@)) {
            Some(c) => r is Some && r->0@ == c,
            None => r is None,
        },
{
    let mut i: usize = 0;
    assert(views(ls@).skip(0) =~= views(ls@));
    while i < ls.len()
        invariant
            i <= ls.len(),
            first_excerpt(views(ls@)) == first_excerpt(views(ls@).skip(i as int)),
        decreases ls.len() - i,
    {
        assert(views(ls@).skip(i as int)[0] == ls@[i as int]@);
        let c = chars_of(clean_markdown(string_of(&ls[i]).as_str()).as_str());
        if crate::text::byte_len_at_least(&c, 32) && !path_has_prefix(&c, "type:") && !path_has_prefix(
            &c,
            "status:",
        ) {
            return Some(c);
        }
        assert(views(ls@).skip(i as int).drop_first() =~= views(ls@).skip(i + 1));
        i = i + 1;
    }
    assert(views(ls@).skip(i as int) =~= Seq::<Seq<char>>::empty());
    None
}

/// Builds the note for one Markdown file at position `id` of the sorted file
/// list, or nothing when the body is blank.
pub fn parse_note(
    id: usize,
    relative_path: String,
    file_stem: Option<String>,
    absolute_path: PathBuf,
    body: String,
) -> (r: Option<KnowledgeNote>)
    ensures
        r is None <==> trim(body@).len() == 0,
        r matches Some(note) ==> note_from(
            note,
            id,
            relative_path@,
            opt_string_view(file_stem),
            absolute_path,
            body@,
        ),
{
    let text = chars_of(body.as_str());
    if trim_exec(&text).len() == 0 {
        return None;
    }
    let metadata = Frontmatter::parse(body.as_str());
    let ls = lines_exec(&text);
    let fallback = match file_stem {
        Some(stem) => stem,
        None => string_of(&chars_of("Untitled note")),
    };
    let title = match find_heading(&ls) {
        Some(h) => {
            let t = trim_exec(&h);
            if t.len() > 0 {
                string_of(&t)
            } else {
                fallback
            }
        },
        None => fallback,
    };
    let excerpt = match find_excerpt(&ls) {
        Some(c) => truncate(string_of(&c).as_str(), 180),
        None => string_of(&chars_of("No excerpt available.")),
    };
    let authority = authority_for(relative_path.as_str(), body.as_str());
    let canon_state = match &metadata.status {
        Some(st) => canon_state_for(Some(st.as_str()), relative_path.as_str(), body.as_str()),
        None => canon_state_for(None, relative_path.as_str(), body.as_str()),
    };
    Some(
        KnowledgeNote {
            id,
            title,
            relative_path,
            absolute_path,
            excerpt,
            body,
            tags: metadata.tags,
            canon_state,
            authority,
        },
    )
}

/// One Markdown file of a vault as read from disk.
pub struct VaultFile {
    pub path: PathBuf,
    /// Path relative to the vault root.
    pub relative_path: String,
    pub file_stem: Option<String>,
    pub body: String,
}

/// `notes` are what `files` yield, the note of the file at position `i`
/// having id `i` and blank files yielding none.
pub open spec fn notes_from_files(notes: Seq<KnowledgeNote>, files: Seq<VaultFile>) -> bool
    decreases files.len(),
{
    if files.len() == 0 {
        notes.len() == 0
    } else {
        let f = files.last();
        if trim(f.body@).len() == 0 {
            notes_from_files(notes, files.drop_last())
        } else {
            &&& notes.len() > 0
            &&& notes_from_files(notes.drop_last(), files.drop_last())
            &&& note_from(
                notes.last(),
                (files.len() - 1) as usize,
                f.relative_path@,
                opt_string_view(f.file_stem),
                f.path,
                f.body@,
            )
        }
    }
}

/// Where a character of a relative path falls in path order: the separator
/// comes before every other character, the rest by code point.
pub open spec fn path_key(c: char) -> int {
    if c == '/' {
        0
    } else {
        c as u32 + 1
    }
}

/// Strict order of relative paths as `Path` orders them: component by
/// component, each by its UTF-8 bytes, a path ahead of its extensions. On
/// text with single `/` separators this is character order with the
/// separator lowest.
pub open spec fn path_precedes(a: Seq<char>, b: Seq<char>) -> bool
    decreases a.len(),
{
    if a.len() == 0 {
        b.len() > 0
    } else if b.len() == 0 {
        false
    } else if a[0] != b[0] {
        path_key(a[0]) < path_key(b[0])
    } else {
        path_precedes(a.drop_first(), b.drop_first())
    }
}

/// Path order is a strict order: never both ways, and transitive.
pub proof fn lemma_path_order(a: Seq<char>, b: Seq<char>, c: Seq<char>)
    ensures
        !(path_precedes(a, b) && path_precedes(b, a)),
        path_precedes(a, b) && path_precedes(b, c) ==> path_precedes(a, c),
    decreases a.len(),
{
    if a.len() > 0 && b.len() > 0 {
        lemma_path_order(a.drop_first(), b.drop_first(), if c.len() > 0 {
            c.drop_first()
        } else {
            c
        });
    }
}

/// A file found under the vault root. `relative_path` uses `/` between
/// components; `file_name` is its last component.
pub struct FoundFile {
    pub path: PathBuf,
    pub relative_path: String,
    pub file_name: String,
    pub file_stem: Option<String>,
}

/// A Markdown file name: its extension is `md`, so it ends in `.md` after a
/// non-empty stem.
pub open spec fn is_markdown_name(name: Seq<char>) -> bool {
    name.len() > 3 && name.subrange(name.len() - 3, name.len() as int) == ".md"@
}

/// Where `f` goes among files in path order: after every file whose path is
/// not after its own.
pub open spec fn path_slot(s: Seq<FoundFile>, f: FoundFile) -> nat
    decreases s.len(),
{
    if s.len() == 0 {
        0
    } else if path_precedes(f.relative_path@, s[0].relative_path@) {
        0
    } else {
        1 + path_slot(s.drop_first(), f)
    }
}

/// The Markdown files among `found`, sorted by path (stably).
pub open spec fn markdown_sorted(found: Seq<FoundFile>) -> Seq<FoundFile>
    decreases found.len(),
{
    if found.len() == 0 {
        seq![]
    } else {
        let r = markdown_sorted(found.drop_last());
        let f = found.last();
        if is_markdown_name(f.file_name@) {
            r.insert(path_slot(r, f) as int, f)
        } else {
            r
        }
    }
}

/// Files listed in path order: no file's path comes before an earlier one's.
pub open spec fn files_in_order(s: Seq<FoundFile>) -> bool {
    forall|i: int, j: int|
        0 <= i < j < s.len() ==> !path_precedes(#[trigger] s[j].relative_path@, #[trigger] s[i].relative_path@)
}

proof fn lemma_path_slot(s: Seq<FoundFile>, f: FoundFile)
    ensures
        path_slot(s, f) <= s.len(),
        forall|j: int| 0 <= j < path_slot(s, f) ==> !path_precedes(f.relative_path@, #[trigger] s[j].relative_path@),
        path_slot(s, f) < s.len() ==> path_precedes(f.relative_path@, s[path_slot(s, f) as int].relative_path@),
    decreases s.len(),
{
    if s.len() > 0 && !path_precedes(f.relative_path@, s[0].relative_path@) {
        let t = s.drop_first();
        lemma_path_slot(t, f);
        assert forall|j: int| 0 <= j < path_slot(s, f) implies !path_precedes(
            f.relative_path@,
            #[trigger] s[j].relative_path@,
        ) by {
            if j > 0 {
                assert(s[j] == t[j - 1]);
            }
        }
        if path_slot(s, f) < s.len() {
            assert(s[path_slot(s, f) as int] == t[path_slot(t, f) as int]);
        }
    }
}

proof fn lemma_slot_found(s: Seq<FoundFile>, f: FoundFile, i: int)
    requires
        0 <= i <= s.len(),
        forall|j: int| 0 <= j < i ==> !path_precedes(f.relative_path@, #[trigger] s[j].relative_path@),
        i == s.len() || path_precedes(f.relative_path@, s[i].relative_path@),
    ensures
        path_slot(s, f) == i,
    decreases i,
{
    if i > 0 {
        let t = s.drop_first();
        assert forall|j: int| 0 <= j < i - 1 implies !path_precedes(f.relative_path@, #[trigger] t[j].relative_path@) by {
            assert(t[j] == s[j + 1]);
        }
        if i < s.len() {
            assert(t[i - 1] == s[i]);
        }
        lemma_slot_found(t, f, i - 1);
        assert(!path_precedes(f.relative_path@, s[0].relative_path@));
    }
}

/// The Markdown files come out in path order, and each of them is a Markdown
/// file that was found.
pub proof fn lemma_markdown_sorted(found: Seq<FoundFile>)
    ensures
        files_in_order(markdown_sorted(found)),
        forall|i: int|
            0 <= i < markdown_sorted(found).len() ==> is_markdown_name(
                (#[trigger] markdown_sorted(found)[i]).file_name@,
            ) && found.contains(markdown_sorted(found)[i]),
    decreases found.len(),
{
    if found.len() > 0 {
        let r = markdown_sorted(found.drop_last());
        lemma_markdown_sorted(found.drop_last());
        let f = found.last();
        if is_markdown_name(f.file_name@) {
            lemma_path_slot(r, f);
            let p = path_slot(r, f) as int;
            let n = r.insert(p, f);
            assert forall|i: int, j: int| 0 <= i < j < n.len() implies !path_precedes(
                #[trigger] n[j].relative_path@,
                #[trigger] n[i].relative_path@,
            ) by {
                if j < p {
                    assert(n[i] == r[i] && n[j] == r[j]);
                } else if j == p {
                    assert(n[i] == r[i]);
                    lemma_path_order(f.relative_path@, r[i].relative_path@, f.relative_path@);
                } else if i == p {
                    assert(n[j] == r[j - 1]);
                    lemma_path_order(r[j - 1].relative_path@, f.relative_path@, r[p].relative_path@);
                    lemma_path_order(f.relative_path@, r[p].relative_path@, f.relative_path@);
                    if j - 1 > p {
                        assert(!path_precedes(r[j - 1].relative_path@, r[p].relative_path@));
                    }
                } else if i < p {
                    assert(n[i] == r[i] && n[j] == r[j - 1]);
                } else {
                    assert(n[i] == r[i - 1] && n[j] == r[j - 1]);
                }
            }
            assert forall|i: int| 0 <= i < n.len() implies is_markdown_name((#[trigger] n[i]).file_name@)
                && found.contains(n[i]) by {
                if i < p {
                    assert(n[i] == r[i]);
                    assert(found.drop_last().contains(r[i]));
                } else if i == p {
                    assert(found[found.len() - 1] == f);
                } else {
                    assert(n[i] == r[i - 1]);
                    assert(found.drop_last().contains(r[i - 1]));
                }
            }
        } else {
            assert forall|i: int| 0 <= i < r.len() implies is_markdown_name((#[trigger] r[i]).file_name@)
                && found.contains(r[i]) by {
                assert(found.drop_last().contains(r[i]));
            }
        }
    }
}

fn path_before(a: &Vec<char>, b: &Vec<char>) -> (r: bool)
    ensures
        r == path_precedes(a@, b@),
{
    let mut i: usize = 0;
    assert(a@.skip(0) =~= a@);
    assert(b@.skip(0) =~= b@);
    while i < a.len() && i < b.len()
        invariant
            i <= a.len(),
            i <= b.len(),
            path_precedes(a@, b@) == path_precedes(a@.skip(i as int), b@.skip(i as int)),
        decreases a.len() - i,
    {
        assert(a@.skip(i as int)[0] == a@[i as int]);
        assert(b@.skip(i as int)[0] == b@[i as int]);
        if a[i] != b[i] {
            if a[i] == '/' {
                return true;
            }
            if b[i] == '/' {
                return false;
            }
            return (a[i] as u32) < (b[i] as u32);
        }
        assert(a@.skip(i as int).drop_first() =~= a@.skip(i + 1));
        assert(b@.skip(i as int).drop_first() =~= b@.skip(i + 1));
        i = i + 1;
    }
    i == a.len() && i < b.len()
}

fn markdown_name(name: &str) -> (r: bool)
    ensures
        r == is_markdown_name(name@),
{
    let c = chars_of(name);
    let n = c.len();
    if n <= 3 {
        return false;
    }
    proof {
        reveal_strlit(".md");
    }
    let r = c[n - 3] == '.' && c[n - 2] == 'm' && c[n - 1] == 'd';
    proof {
        let sub = c@.subrange(n - 3, n as int);
        assert(".md"@ =~= seq!['.', 'm', 'd']);
        if r {
            assert(sub =~= ".md"@);
        } else {
            assert(sub[0] == c@[n - 3] && sub[1] == c@[n - 2] && sub[2] == c@[n - 1]);
        }
    }
    r
}

/// The Markdown files among those found under the root, in path order: the
/// files the vault is indexed from, in the order their notes are numbered.
pub fn markdown_files(found: Vec<FoundFile>) -> (r: Vec<FoundFile>)
    ensures
        r@ == markdown_sorted(found@),
        files_in_order(r@),
{
    proof {
        lemma_markdown_sorted(found@);
    }
    let ghost all = found@;
    let n = found.len();
    let mut sorted: Vec<FoundFile> = Vec::new();
    let mut i: usize = 0;
    for f in it: found.into_iter()
        invariant
            it.seq() == all,
            all.len() == n,
            i == it.index(),
            sorted@ == markdown_sorted(all.take(i as int)),
    {
        assert(all.take(i + 1).drop_last() =~= all.take(i as int));
        assert(all.take(i + 1).last() == f);
        if markdown_name(f.file_name.as_str()) {
            let key = chars_of(f.relative_path.as_str());
            let mut k: usize = 0;
            while k < sorted.len() && !path_before(&key, &chars_of(sorted[k].relative_path.as_str()))
                invariant
                    k <= sorted.len(),
                    key@ == f.relative_path@,
                    forall|j: int| 0 <= j < k ==> !path_precedes(f.relative_path@, #[trigger] sorted@[j].relative_path@),
                decreases sorted.len() - k,
            {
                k = k + 1;
            }
            proof {
                lemma_slot_found(sorted@, f, k as int);
            }
            sorted.insert(k, f);
        }
        i = i + 1;
    }
    assert(all.take(all.len() as int) =~= all);
    sorted
}

/// Indexes the Markdown files of a vault, given in path order.
pub fn load(root: PathBuf, files: Vec<VaultFile>) -> (r: VaultIndex)
    requires
        forall|i: int, j: int|
            0 <= i < j < files@.len() ==> !path_precedes(
                #[trigger] files@[j].relative_path@,
                #[trigger] files@[i].relative_path@,
            ),
    ensures
        r.root == root,
        notes_from_files(r.notes@, files@),
{
    let mut notes: Vec<KnowledgeNote> = Vec::new();
    let ghost all = files@;
    let n = files.len();
    let mut i: usize = 0;
    for f in it: files.into_iter()
        invariant
            it.seq() == all,
            all.len() == n,
            i == it.index(),
            notes_from_files(notes@, all.take(i as int)),
    {
        assert(all.take(i + 1).drop_last() =~= all.take(i as int));
        assert(all.take(i + 1).last() == f);
        let ghost before = notes@;
        match parse_note(i, f.relative_path, f.file_stem, f.path, f.body) {
            Some(note) => {
                notes.push(note);
                assert(notes@.drop_last() =~= before);
            },
            None => {},
        }
        i = i + 1;
    }
    assert(all.take(all.len() as int) =~= all);
    VaultIndex { root, notes }
}

/// The files of reads that all succeeded.
pub open spec fn read_files(reads: Seq<Result<VaultFile, String>>) -> Seq<VaultFile> {
    reads.map_values(|r: Result<VaultFile, String>| r->Ok_0)
}

/// Indexes a vault from its Markdown files read in path order. The first
/// file that could not be read fails the whole index; otherwise every file
/// goes through `load`.
pub fn index_files(root: PathBuf, reads: Vec<Result<VaultFile, String>>) -> (r: Result<VaultIndex, String>)
    requires
        forall|i: int, j: int|
            0 <= i < j < reads@.len() && reads@[i] is Ok && reads@[j] is Ok ==> !path_precedes(
                (#[trigger] reads@[j])->Ok_0.relative_path@,
                (#[trigger] reads@[i])->Ok_0.relative_path@,
            ),
    ensures
        r is Ok <==> forall|i: int| 0 <= i < reads@.len() ==> #[trigger] reads@[i] is Ok,
        r matches Err(e) ==> exists|i: int|
            0 <= i < reads@.len() && #[trigger] reads@[i] == Err::<VaultFile, String>(e) && forall|j: int|
                0 <= j < i ==> #[trigger] reads@[j] is Ok,
        r matches Ok(index) ==> index.root == root && notes_from_files(index.notes@, read_files(reads@)),
{
    let ghost all = reads@;
    let n = reads.len();
    let mut files: Vec<VaultFile> = Vec::new();
    let mut i: usize = 0;
    for read in it: reads.into_iter()
        invariant
            it.seq() == all,
            all.len() == n,
            i == it.index(),
            forall|j: int| 0 <= j < i ==> #[trigger] all[j] is Ok,
            files@ == read_files(all.take(i as int)),
            forall|a: int, b: int|
                0 <= a < b < all.len() && all[a] is Ok && all[b] is Ok ==> !path_precedes(
                    (#[trigger] all[b])->Ok_0.relative_path@,
                    (#[trigger] all[a])->Ok_0.relative_path@,
                ),
    {
        assert(all[i as int] == read);
        match read {
            Err(e) => {
                return Err(e);
            },
            Ok(f) => {
                files.push(f);
                assert(files@ =~= read_files(all.take(i + 1)));
            },
        }
        i = i + 1;
    }
    assert(all.take(all.len() as int) =~= all);
    proof {
        assert forall|a: int, b: int| 0 <= a < b < files@.len() implies !path_precedes(
            #[trigger] files@[b].relative_path@,
            #[trigger] files@[a].relative_path@,
        ) by {
            assert(files@[a] == all[a]->Ok_0 && files@[b] == all[b]->Ok_0);
        }
    }
    Ok(load(root, files))
}

/// Prefixes a failure to index the vault with the root it was reading.
pub open spec fn index_error(root: Seq<char>, error: Seq<char>) -> Seq<char> {
    "Could not index "@ + root + ": "@ + error
}

/// The outcome of indexing the configured vault, with errors explained.
pub fn load_configured(root: &str, loaded: Result<VaultIndex, String>) -> (r: Result<VaultIndex, String>)
    ensures
        match loaded {
            Ok(index) => r == Ok::<VaultIndex, String>(index),
            Err(e) => r matches Err(m) && m@ == index_error(root@, e@),
        },
{
    match loaded {
        Ok(index) => Ok(index),
        Err(error) => {
            let mut message = String::from_str("Could not index ");
            message.append(root);
            message.append(": ");
            message.append(error.as_str());
            Err(message)
        },
    }
}


/// Whether the path or body claims the provenance `a`: the canon folder for
/// canon synthesis, a body marker for each marked source, a path in a folder
/// starting with `0` for the structured vault; every note can be archive.
pub open spec fn claims(path: Seq<char>, body: Seq<char>, a: SourceAuthority) -> bool {
    match a {
        SourceAuthority::CanonSynthesis => has_prefix(path, "94 - Canon Synthesis/"@),
        SourceAuthority::UserCorrected => contains_seq(body, "[USER-CORRECTED]"@),
        SourceAuthority::UserStated => contains_seq(body, "[USER-STATED]"@),
        SourceAuthority::RecoveredUserContext => contains_seq(body, "[RECOVERED-NONVERBATIM]"@) || contains_seq(
            body,
            "[RECOVERED-UNCERTAIN]"@,
        ),
        SourceAuthority::StructuredVault => contains_seq(body, "[STRUCTURED-VAULT]"@) || has_prefix(path, "0"@),
        SourceAuthority::AssistantSynthesis => contains_seq(body, "[ASSISTANT-SYNTHESIS]"@),
        SourceAuthority::AssistantReconstruction => contains_seq(body, "[ASSISTANT-RECONSTRUCTION]"@),
        SourceAuthority::Archive => true,
    }
}

/// A note's provenance is the most trusted one it claims: it is claimed, and
/// every claimed provenance ranks at most as high. So a body marked
/// `[USER-CORRECTED]` outside the canon folder is user-corrected, and each
/// marker maps to its own provenance.
pub proof fn lemma_authority_is_strongest_claim(path: Seq<char>, body: Seq<char>)
    ensures
        claims(path, body, authority_of(path, body)),
        forall|a: SourceAuthority| #[trigger] claims(path, body, a) ==> a.rank() <= authority_of(path, body).rank(),
        forall|a: SourceAuthority|
            #[trigger] claims(path, body, a) && a.rank() == authority_of(path, body).rank() ==> a == authority_of(
                path,
                body,
            ),
{
}

} // verus!
