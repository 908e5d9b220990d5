//! Tiles: one unit of knowledge, written as markdown with a front matter
//! of `key: value` lines between two `---` fences.
use vstd::prelude::*;
use crate::text::{
    ascii_lower, chars_of, concat_text, find_char, find_in, is_ascii_text, is_white, join,
    join_strings, lacks, lemma_join_lines_of, lemma_lines_of_join, lemma_lines_of_join_then,
    lemma_list_items_join, lemma_trim_after_space, lemma_trimmed, line_ranges, lines_of,
    list_items, list_items_of, list_sep, lower, no_crlf, pieces, range_strings, same_text,
    strip_cr, substring, to_lowercase, trim, trim_end, trim_range, trim_start, trim_text, trimmed,
    views,
};

verus! {

/// What a tile records.
#[derive(Debug, Clone, Copy, PartialEq, Eq, Structural)]
pub enum TileKind {
    Fact,
    Proof,
    Failure,
    Benchmark,
    Code,
    Observation,
    Conjecture,
    Retracted,
}

/// How far a tile has been established.
#[derive(Debug, Clone, Copy, PartialEq, Eq, Structural)]
pub enum TileStatus {
    Verified,
    Partial,
    Failed,
    Conjecture,
    Retracted,
}

/// The name under which a kind is written.
pub open spec fn kind_name(k: TileKind) -> Seq<char> {
    match k {
        TileKind::Fact => "Fact"@,
        TileKind::Proof => "Proof"@,
        TileKind::Failure => "Failure"@,
        TileKind::Benchmark => "Benchmark"@,
        TileKind::Code => "Code"@,
        TileKind::Observation => "Observation"@,
        TileKind::Conjecture => "Conjecture"@,
        TileKind::Retracted => "Retracted"@,
    }
}

/// The name under which a status is written.
pub open spec fn status_name(s: TileStatus) -> Seq<char> {
    match s {
        TileStatus::Verified => "Verified"@,
        TileStatus::Partial => "Partial"@,
        TileStatus::Failed => "Failed"@,
        TileStatus::Conjecture => "Conjecture"@,
        TileStatus::Retracted => "Retracted"@,
    }
}

/// The kind that a front-matter value names: compared after trimming and
/// lowercasing; an unknown name is an error that quotes the value.
pub open spec fn kind_of(s: Seq<char>) -> Result<TileKind, Seq<char>> {
    let l = lower(trim(s));
    if l == "fact"@ {
        Ok(TileKind::Fact)
    } else if l == "proof"@ {
        Ok(TileKind::Proof)
    } else if l == "failure"@ {
        Ok(TileKind::Failure)
    } else if l == "benchmark"@ {
        Ok(TileKind::Benchmark)
    } else if l == "code"@ {
        Ok(TileKind::Code)
    } else if l == "observation"@ {
        Ok(TileKind::Observation)
    } else if l == "conjecture"@ {
        Ok(TileKind::Conjecture)
    } else if l == "retracted"@ {
        Ok(TileKind::Retracted)
    } else {
        Err("unknown kind: "@ + s)
    }
}

/// The status that a front-matter value names, read as `kind_of` reads kinds.
pub open spec fn status_of(s: Seq<char>) -> Result<TileStatus, Seq<char>> {
    let l = lower(trim(s));
    if l == "verified"@ {
        Ok(TileStatus::Verified)
    } else if l == "partial"@ {
        Ok(TileStatus::Partial)
    } else if l == "failed"@ {
        Ok(TileStatus::Failed)
    } else if l == "conjecture"@ {
        Ok(TileStatus::Conjecture)
    } else if l == "retracted"@ {
        Ok(TileStatus::Retracted)
    } else {
        Err("unknown status: "@ + s)
    }
}

/// A result whose error is a string, seen with the string's characters.
pub open spec fn text_result<T>(r: Result<T, String>) -> Result<T, Seq<char>> {
    match r {
        Ok(v) => Ok(v),
        Err(e) => Err(e@),
    }
}

/// The name under which a kind is written.
pub fn kind_str(k: &TileKind) -> (r: &'static str)
    ensures
        r@ == kind_name(*k),
{
    match k {
        TileKind::Fact => "Fact",
        TileKind::Proof => "Proof",
        TileKind::Failure => "Failure",
        TileKind::Benchmark => "Benchmark",
        TileKind::Code => "Code",
        TileKind::Observation => "Observation",
        TileKind::Conjecture => "Conjecture",
        TileKind::Retracted => "Retracted",
    }
}

/// The name under which a status is written.
pub fn status_str(s: &TileStatus) -> (r: &'static str)
    ensures
        r@ == status_name(*s),
{
    match s {
        TileStatus::Verified => "Verified",
        TileStatus::Partial => "Partial",
        TileStatus::Failed => "Failed",
        TileStatus::Conjecture => "Conjecture",
        TileStatus::Retracted => "Retracted",
    }
}

/// Reads a kind name, ignoring case and surrounding white space.
pub fn parse_kind(s: &str) -> (r: Result<TileKind, String>)
    ensures
        text_result(r) == kind_of(s@),
{
    let t = trim_text(s);
    let l = to_lowercase(t.as_str());
    if same_text(l.as_str(), "fact") {
        Ok(TileKind::Fact)
    } else if same_text(l.as_str(), "proof") {
        Ok(TileKind::Proof)
    } else if same_text(l.as_str(), "failure") {
        Ok(TileKind::Failure)
    } else if same_text(l.as_str(), "benchmark") {
        Ok(TileKind::Benchmark)
    } else if same_text(l.as_str(), "code") {
        Ok(TileKind::Code)
    } else if same_text(l.as_str(), "observation") {
        Ok(TileKind::Observation)
    } else if same_text(l.as_str(), "conjecture") {
        Ok(TileKind::Conjecture)
    } else if same_text(l.as_str(), "retracted") {
        Ok(TileKind::Retracted)
    } else {
        Err(concat_text("unknown kind: ", s))
    }
}

/// Reads a status name, ignoring case and surrounding white space.
pub fn parse_status(s: &str) -> (r: Result<TileStatus, String>)
    ensures
        text_result(r) == status_of(s@),
{
    let t = trim_text(s);
    let l = to_lowercase(t.as_str());
    if same_text(l.as_str(), "verified") {
        Ok(TileStatus::Verified)
    } else if same_text(l.as_str(), "partial") {
        Ok(TileStatus::Partial)
    } else if same_text(l.as_str(), "failed") {
        Ok(TileStatus::Failed)
    } else if same_text(l.as_str(), "conjecture") {
        Ok(TileStatus::Conjecture)
    } else if same_text(l.as_str(), "retracted") {
        Ok(TileStatus::Retracted)
    } else {
        Err(concat_text("unknown status: ", s))
    }
}


/// The entry that one front-matter line holds: the trimmed text before
/// its first `:` as key, the trimmed text after it as value; a line
/// without `:` holds none.
pub open spec fn entry_of(l: Seq<char>) -> Option<(Seq<char>, Seq<char>)> {
    let t = trim(l);
    match find_char(t, ':') {
        Some(p) => Some((trim(t.take(p)), trim(t.skip(p + 1)))),
        None => None,
    }
}

/// The entries of the lines, a later line overriding an earlier one with
/// the same key.
pub open spec fn entries_of(ls: Seq<Seq<char>>) -> Map<Seq<char>, Seq<char>>
    decreases ls.len(),
{
    if ls.len() == 0 {
        Map::empty()
    } else {
        let m = entries_of(ls.drop_last());
        match entry_of(ls.last()) {
            Some(e) => m.insert(e.0, e.1),
            None => m,
        }
    }
}

/// The key-value map that a front-matter text denotes.
pub open spec fn front_matter_of(text: Seq<char>) -> Map<Seq<char>, Seq<char>> {
    entries_of(lines_of(text))
}

/// The map that a list of key-value pairs denotes, later pairs overriding
/// earlier ones.
pub open spec fn pairs_map(es: Seq<(String, String)>) -> Map<Seq<char>, Seq<char>>
    decreases es.len(),
{
    if es.len() == 0 {
        Map::empty()
    } else {
        pairs_map(es.drop_last()).insert(es.last().0@, es.last().1@)
    }
}

proof fn lemma_pairs_map_last(es: Seq<(String, String)>, k: Seq<char>, i: int)
    requires
        0 <= i < es.len(),
        es[i].0@ == k,
        forall|j: int| i < j < es.len() ==> es[j].0@ != k,
    ensures
        pairs_map(es).contains_key(k),
        pairs_map(es)[k] == es[i].1@,
    decreases es.len(),
{
    if i < es.len() - 1 {
        lemma_pairs_map_last(es.drop_last(), k, i);
    }
}

proof fn lemma_pairs_map_absent(es: Seq<(String, String)>, k: Seq<char>)
    requires
        forall|j: int| 0 <= j < es.len() ==> es[j].0@ != k,
    ensures
        !pairs_map(es).contains_key(k),
    decreases es.len(),
{
    if es.len() > 0 {
        lemma_pairs_map_absent(es.drop_last(), k);
    }
}

/// The `key: value` entries of a front matter, in the order of their
/// lines; where a key repeats, the later entry counts.
pub struct FrontMatter {
    entries: Vec<(String, String)>,
}

impl View for FrontMatter {
    type V = Map<Seq<char>, Seq<char>>;

    closed spec fn view(&self) -> Map<Seq<char>, Seq<char>> {
        pairs_map(self.entries@)
    }
}

impl FrontMatter {
    /// The value of `key`, if the front matter has one.
    pub fn get(&self, key: &str) -> (r: Option<&String>)
        ensures
            match r {
                Some(v) => self@.contains_key(key@) && self@[key@] == v@,
                None => !self@.contains_key(key@),
            },
    {
        let mut i = self.entries.len();
        while i > 0
            invariant
                i <= self.entries.len(),
                forall|j: int| i <= j < self.entries.len() ==> self.entries@[j].0@ != key@,
            decreases i,
        {
            i -= 1;
            if same_text(self.entries[i].0.as_str(), key) {
                proof {
                    lemma_pairs_map_last(self.entries@, key@, i as int);
                }
                return Some(&self.entries[i].1);
            }
        }
        proof {
            lemma_pairs_map_absent(self.entries@, key@);
        }
        None
    }

    /// The value of `key`, or the empty string where there is none.
    fn value_or_empty(&self, key: &str) -> (r: String)
        ensures
            r@ == (if self@.contains_key(key@) { self@[key@] } else { Seq::<char>::empty() }),
    {
        match self.get(key) {
            Some(v) => v.clone(),
            None => String::new(),
        }
    }
}

/// Reads the `key: value` lines of a front matter. Lines are trimmed;
/// those without `:` are skipped; key and value are trimmed; a later line
/// overrides an earlier one with the same key. It never fails.
pub fn parse_yaml_simple(text: &str) -> (r: Result<FrontMatter, String>)
    ensures
        r matches Ok(m) && m@ == front_matter_of(text@),
{
    let cs = chars_of(text);
    let ls = line_ranges(&cs);
    let ghost lines = lines_of(text@);
    let mut entries: Vec<(String, String)> = Vec::new();
    let mut k: usize = 0;
    assert(lines.take(0) =~= Seq::<Seq<char>>::empty());
    while k < ls.len()
        invariant
            cs@ == text@,
            lines == lines_of(text@),
            pieces(cs@, ls@) == lines,
            forall|q: int| 0 <= q < ls@.len() ==> ls@[q].0 <= #[trigger] ls@[q].1 <= cs@.len(),
            k <= ls.len(),
            pairs_map(entries@) == entries_of(lines.take(k as int)),
        decreases ls.len() - k,
    {
        let (a, b) = ls[k];
        assert(ls@[k as int].0 <= ls@[k as int].1 <= cs@.len());
        let ghost line = cs@.subrange(a as int, b as int);
        assert(pieces(cs@, ls@)[k as int] == line);
        assert(lines.take(k + 1).drop_last() =~= lines.take(k as int));
        assert(lines.take(k + 1).last() == line);
        let (x, y) = trim_range(&cs, a, b);
        let ghost t = cs@.subrange(x as int, y as int);
        let ghost old_entries = entries@;
        assert(trim(line) == t);
        match find_in(&cs, x, y, ':') {
            Some(p) => {
                assert(t.take(p - x) =~= cs@.subrange(x as int, p as int));
                assert(t.skip(p - x + 1) =~= cs@.subrange(p + 1, y as int));
                let (ka, kb) = trim_range(&cs, x, p);
                let (va, vb) = trim_range(&cs, p + 1, y);
                let key = substring(text, ka, kb);
                let value = substring(text, va, vb);
                entries.push((key, value));
                assert(entry_of(line) == Some((key@, value@)));
                assert(entries@.drop_last() =~= old_entries);
            },
            None => {
                assert(entry_of(line) is None);
            },
        }
        k += 1;
    }
    assert(lines.take(ls.len() as int) =~= lines);
    Ok(FrontMatter { entries })
}


/// A tile. Its confidence is held as `C`: the verified logic only carries
/// it; reading markdown gives the confidence's text (`Option<String>`,
/// `None` where the front matter has none), and a caller turns that into
/// the number it works with.
#[derive(Debug, Clone)]
pub struct Tile<C> {
    pub id: String,
    pub room: String,
    pub kind: TileKind,
    pub status: TileStatus,
    pub title: String,
    pub content: String,
    pub dependencies: Vec<String>,
    pub confidence: C,
    pub tags: Vec<String>,
}

/// Everything of a tile but its confidence, as characters.
pub struct TileFields {
    pub id: Seq<char>,
    pub room: Seq<char>,
    pub kind: TileKind,
    pub status: TileStatus,
    pub title: Seq<char>,
    pub content: Seq<char>,
    pub dependencies: Seq<Seq<char>>,
    pub tags: Seq<Seq<char>>,
}

impl<C> Tile<C> {
    /// Everything of the tile but its confidence.
    pub open spec fn fields(&self) -> TileFields {
        TileFields {
            id: self.id@,
            room: self.room@,
            kind: self.kind,
            status: self.status,
            title: self.title@,
            content: self.content@,
            dependencies: views(self.dependencies@),
            tags: views(self.tags@),
        }
    }

    /// A failure is a tile of kind `Failure` or of status `Failed`.
    pub open spec fn spec_is_failure(&self) -> bool {
        self.kind == TileKind::Failure || self.status == TileStatus::Failed
    }

    /// Whether the tile is of kind `Failure` or of status `Failed`.
    pub fn is_failure(&self) -> (r: bool)
        ensures
            r == self.spec_is_failure(),
    {
        self.kind == TileKind::Failure || self.status == TileStatus::Failed
    }

    /// Whether the tile's status is `Verified`.
    pub fn is_verified(&self) -> (r: bool)
        ensures
            r == (self.status == TileStatus::Verified),
    {
        self.status == TileStatus::Verified
    }

    /// The same tile with `confidence` in place of its confidence.
    pub fn with_confidence<D>(self, confidence: D) -> (r: Tile<D>)
        ensures
            r.fields() == self.fields(),
            r.confidence == confidence,
    {
        Tile {
            id: self.id,
            room: self.room,
            kind: self.kind,
            status: self.status,
            title: self.title,
            content: self.content,
            dependencies: self.dependencies,
            confidence,
            tags: self.tags,
        }
    }

    /// The tile as markdown: the front matter between `---` fences, then the
    /// content. `confidence` is the text written for the confidence.
    pub fn to_markdown(&self, confidence: &str) -> (r: String)
        ensures
            r@ == markdown_text(self.fields(), confidence@),
    {
        let deps = join_strings(&self.dependencies, ", ");
        let tags = join_strings(&self.tags, ", ");
        let mut lines: Vec<String> = Vec::new();
        lines.push("---".to_owned());
        lines.push(concat_text("id: ", self.id.as_str()));
        lines.push(concat_text("room: ", self.room.as_str()));
        lines.push(concat_text("kind: ", kind_str(&self.kind)));
        lines.push(concat_text("status: ", status_str(&self.status)));
        lines.push(concat_text("title: ", self.title.as_str()));
        lines.push(concat_text("confidence: ", confidence));
        lines.push(concat_text("dependencies: ", deps.as_str()));
        lines.push(concat_text("tags: ", tags.as_str()));
        lines.push("---".to_owned());
        assert(views(lines@) =~= header_lines(self.fields(), confidence@));
        let mut out = join_strings(&lines, "\n");
        out.append("\n");
        out.append(self.content.as_str());
        out
    }
}

/// The front-matter lines of a tile, fences included, with `confidence`
/// as the text of its confidence.
pub open spec fn header_lines(f: TileFields, confidence: Seq<char>) -> Seq<Seq<char>> {
    seq![
        "---"@,
        "id: "@ + f.id,
        "room: "@ + f.room,
        "kind: "@ + kind_name(f.kind),
        "status: "@ + status_name(f.status),
        "title: "@ + f.title,
        "confidence: "@ + confidence,
        "dependencies: "@ + join(f.dependencies, ", "@),
        "tags: "@ + join(f.tags, ", "@),
        "---"@,
    ]
}

/// The markdown that a tile is written as, with `confidence` as the text
/// of its confidence: the front-matter lines, a line break, the content.
pub open spec fn markdown_text(f: TileFields, confidence: Seq<char>) -> Seq<char> {
    join(header_lines(f, confidence), "\n"@) + "\n"@ + f.content
}

/// A fence line: `---`, give or take surrounding white space.
pub open spec fn is_fence(l: Seq<char>) -> bool {
    trim(l) == seq!['-', '-', '-']
}

/// The first fence among the lines from index `from` on.
pub open spec fn closing_fence(ls: Seq<Seq<char>>, from: int) -> Option<int> {
    if exists|k: int|
        from <= k < ls.len() && is_fence(ls[k]) && forall|j: int| from <= j < k ==> !is_fence(ls[j])
    {
        Some(
            choose|k: int|
                from <= k < ls.len() && is_fence(ls[k]) && forall|j: int|
                    from <= j < k ==> !is_fence(ls[j]),
        )
    } else {
        None
    }
}

/// The value of `key`, or the empty text where there is none.
pub open spec fn value_or_empty(m: Map<Seq<char>, Seq<char>>, key: Seq<char>) -> Seq<char> {
    if m.contains_key(key) {
        m[key]
    } else {
        Seq::<char>::empty()
    }
}

/// The items of the list under `key`, none where there is no such key.
pub open spec fn items_or_none(m: Map<Seq<char>, Seq<char>>, key: Seq<char>) -> Seq<Seq<char>> {
    if m.contains_key(key) {
        list_items(m[key])
    } else {
        Seq::<Seq<char>>::empty()
    }
}

/// What a markdown text reads as: the tile's fields and the text of its
/// confidence, or the error that stops the reading.
pub open spec fn markdown_of(md: Seq<char>) -> Result<(TileFields, Option<Seq<char>>), Seq<char>> {
    let ls = lines_of(md);
    if ls.len() == 0 {
        Err("empty input"@)
    } else if !is_fence(ls[0]) {
        Err("expected opening ---"@)
    } else {
        match closing_fence(ls, 1) {
            None => Err("expected closing ---"@),
            Some(k) => {
                let meta = front_matter_of(join(ls.subrange(1, k), "\n"@));
                if !meta.contains_key("id"@) {
                    Err("missing id"@)
                } else if !meta.contains_key("kind"@) {
                    Err("missing kind"@)
                } else {
                    match kind_of(meta["kind"@]) {
                        Err(e) => Err(e),
                        Ok(kind) => if !meta.contains_key("status"@) {
                            Err("missing status"@)
                        } else {
                            match status_of(meta["status"@]) {
                                Err(e) => Err(e),
                                Ok(status) => Ok(
                                    (
                                        TileFields {
                                            id: meta["id"@],
                                            room: value_or_empty(meta, "room"@),
                                            kind,
                                            status,
                                            title: value_or_empty(meta, "title"@),
                                            content: trim(join(ls.skip(k + 1), "\n"@)),
                                            dependencies: items_or_none(meta, "dependencies"@),
                                            tags: items_or_none(meta, "tags"@),
                                        },
                                        if meta.contains_key("confidence"@) {
                                            Some(meta["confidence"@])
                                        } else {
                                            None
                                        },
                                    ),
                                ),
                            }
                        },
                    }
                }
            },
        }
    }
}

/// An optional string, seen with its characters.
pub open spec fn opt_text(o: Option<String>) -> Option<Seq<char>> {
    match o {
        Some(s) => Some(s@),
        None => None,
    }
}

/// Whether `cs[a..b]` is a fence line.
fn is_fence_range(cs: &Vec<char>, a: usize, b: usize) -> (r: bool)
    requires
        a <= b <= cs.len(),
    ensures
        r == is_fence(cs@.subrange(a as int, b as int)),
{
    let (x, y) = trim_range(cs, a, b);
    let r = y - x == 3 && cs[x] == '-' && cs[x + 1] == '-' && cs[x + 2] == '-';
    let ghost t = cs@.subrange(x as int, y as int);
    assert(r ==> t =~= seq!['-', '-', '-']);
    proof {
        if t == seq!['-', '-', '-'] {
            assert(t.len() == 3);
            assert(t[0] == cs@[x as int] && t[1] == cs@[x + 1] && t[2] == cs@[x + 2]);
        }
    }
    r
}

impl Tile<Option<String>> {
    /// Reads a tile from markdown: an opening `---` line, `key: value`
    /// lines, a closing `---` line, then the content. `id`, `kind` and
    /// `status` must be there; `room` and `title` default to empty,
    /// `dependencies` and `tags` are comma-separated lists, and the
    /// confidence is handed back as the text it was written as.
    pub fn from_markdown(md: &str) -> (r: Result<Tile<Option<String>>, String>)
        ensures
            match r {
                Ok(t) => markdown_of(md@) == Ok::<(TileFields, Option<Seq<char>>), Seq<char>>(
                    (t.fields(), opt_text(t.confidence)),
                ),
                Err(e) => markdown_of(md@) == Err::<(TileFields, Option<Seq<char>>), Seq<char>>(
                    e@,
                ),
            },
    {
        let cs = chars_of(md);
        let ls = line_ranges(&cs);
        let ghost lines = lines_of(md@);
        if ls.len() == 0 {
            return Err("empty input".to_owned());
        }
        assert(pieces(cs@, ls@)[0] == lines[0]);
        let (a0, b0) = ls[0];
        assert(ls@[0].0 <= ls@[0].1 <= cs@.len());
        if !is_fence_range(&cs, a0, b0) {
            return Err("expected opening ---".to_owned());
        }
        let mut k: usize = 1;
        loop
            invariant
                1 <= k <= ls.len(),
                cs@ == md@,
                pieces(cs@, ls@) == lines,
                forall|q: int| 0 <= q < ls@.len() ==> ls@[q].0 <= #[trigger] ls@[q].1 <= cs@.len(),
                forall|j: int| 1 <= j < k ==> !is_fence(#[trigger] lines[j]),
            ensures
                1 <= k <= ls.len(),
                forall|j: int| 1 <= j < k ==> !is_fence(#[trigger] lines[j]),
                k < ls.len() ==> is_fence(lines[k as int]),
            decreases ls.len() - k,
        {
            if k == ls.len() {
                break;
            }
            let (a, b) = ls[k];
            assert(ls@[k as int].0 <= ls@[k as int].1 <= cs@.len());
            assert(pieces(cs@, ls@)[k as int] == lines[k as int]);
            if is_fence_range(&cs, a, b) {
                break;
            }
            k += 1;
        }
        if k == ls.len() {
            assert(closing_fence(lines, 1) is None);
            return Err("expected closing ---".to_owned());
        }
        assert(is_fence(lines[k as int]));
        assert(closing_fence(lines, 1) == Some(k as int)) by {
            assert forall|m: int|
                1 <= m < lines.len() && is_fence(lines[m]) && (forall|j: int|
                    1 <= j < m ==> !is_fence(lines[j])) implies m == k by {
                if m < k {
                    assert(!is_fence(lines[m]));
                } else if m > k {
                    assert(!is_fence(lines[k as int]));
                }
            }
        }
        let front = range_strings(md, &ls, 1, k);
        let front_text = join_strings(&front, "\n");
        assert(views(front@) == lines.subrange(1, k as int));
        let meta = match parse_yaml_simple(front_text.as_str()) {
            Ok(m) => m,
            Err(e) => {
                return Err(e);
            },
        };
        let id = match meta.get("id") {
            Some(v) => v.clone(),
            None => {
                return Err("missing id".to_owned());
            },
        };
        let room = meta.value_or_empty("room");
        let title = meta.value_or_empty("title");
        let kind_text = match meta.get("kind") {
            Some(v) => v.clone(),
            None => {
                return Err("missing kind".to_owned());
            },
        };
        let kind = match parse_kind(kind_text.as_str()) {
            Ok(x) => x,
            Err(e) => {
                return Err(e);
            },
        };
        let status_text = match meta.get("status") {
            Some(v) => v.clone(),
            None => {
                return Err("missing status".to_owned());
            },
        };
        let status = match parse_status(status_text.as_str()) {
            Ok(x) => x,
            Err(e) => {
                return Err(e);
            },
        };
        let confidence = match meta.get("confidence") {
            Some(v) => Some(v.clone()),
            None => None,
        };
        let dependencies = match meta.get("dependencies") {
            Some(v) => list_items_of(v.as_str()),
            None => Vec::new(),
        };
        let tags = match meta.get("tags") {
            Some(v) => list_items_of(v.as_str()),
            None => Vec::new(),
        };
        let rest = range_strings(md, &ls, k + 1, ls.len());
        assert(views(rest@) =~= lines.skip(k + 1));
        let body = join_strings(&rest, "\n");
        let content = trim_text(body.as_str());
        let tile = Tile { id, room, kind, status, title, content, dependencies, confidence, tags };
        assert(views(tile.dependencies@) == items_or_none(meta@, "dependencies"@));
        assert(views(tile.tags@) == items_or_none(meta@, "tags"@));
        Ok(tile)
    }
}


/// A written kind name reads back as the same kind.
pub proof fn lemma_kind_name(k: TileKind)
    ensures
        trimmed(kind_name(k)),
        lacks(kind_name(k), '\n'),
        kind_of(kind_name(k)) == Ok::<TileKind, Seq<char>>(k),
{
    reveal_strlit("Fact");
    reveal_strlit("Proof");
    reveal_strlit("Failure");
    reveal_strlit("Benchmark");
    reveal_strlit("Code");
    reveal_strlit("Observation");
    reveal_strlit("Conjecture");
    reveal_strlit("Retracted");
    reveal_strlit("fact");
    reveal_strlit("proof");
    reveal_strlit("failure");
    reveal_strlit("benchmark");
    reveal_strlit("code");
    reveal_strlit("observation");
    reveal_strlit("conjecture");
    reveal_strlit("retracted");
    let n = kind_name(k);
    lemma_trimmed(n);
    assert(is_ascii_text(n));
    assert(lower(trim(n)) == ascii_lower(n));
    match k {
        TileKind::Fact => {
            assert(ascii_lower(n) =~= "fact"@);
            assert(lower(trim(n)) == "fact"@);
            assert(kind_of(n) == Ok::<TileKind, Seq<char>>(TileKind::Fact));
        },
        TileKind::Proof => {
            assert(ascii_lower(n) =~= "proof"@);
            assert(kind_of(n) == Ok::<TileKind, Seq<char>>(TileKind::Proof));
        },
        TileKind::Failure => {
            assert(ascii_lower(n) =~= "failure"@);
            assert(kind_of(n) == Ok::<TileKind, Seq<char>>(TileKind::Failure));
        },
        TileKind::Benchmark => {
            assert(ascii_lower(n) =~= "benchmark"@);
            assert(kind_of(n) == Ok::<TileKind, Seq<char>>(TileKind::Benchmark));
        },
        TileKind::Code => {
            assert(ascii_lower(n) =~= "code"@);
            assert("code"@[0] != "fact"@[0]);
            assert(kind_of(n) == Ok::<TileKind, Seq<char>>(TileKind::Code));
        },
        TileKind::Observation => {
            assert(ascii_lower(n) =~= "observation"@);
            assert(kind_of(n) == Ok::<TileKind, Seq<char>>(TileKind::Observation));
        },
        TileKind::Conjecture => {
            assert(ascii_lower(n) =~= "conjecture"@);
            assert(kind_of(n) == Ok::<TileKind, Seq<char>>(TileKind::Conjecture));
        },
        TileKind::Retracted => {
            assert(ascii_lower(n) =~= "retracted"@);
            assert("retracted"@[0] != "benchmark"@[0]);
            assert(kind_of(n) == Ok::<TileKind, Seq<char>>(TileKind::Retracted));
        },
    }
}


/// A written status name reads back as the same status.
pub proof fn lemma_status_name(st: TileStatus)
    ensures
        trimmed(status_name(st)),
        lacks(status_name(st), '\n'),
        status_of(status_name(st)) == Ok::<TileStatus, Seq<char>>(st),
{
    reveal_strlit("Verified");
    reveal_strlit("Partial");
    reveal_strlit("Failed");
    reveal_strlit("Conjecture");
    reveal_strlit("Retracted");
    reveal_strlit("verified");
    reveal_strlit("partial");
    reveal_strlit("failed");
    reveal_strlit("conjecture");
    reveal_strlit("retracted");
    let n = status_name(st);
    lemma_trimmed(n);
    assert(is_ascii_text(n));
    assert(lower(trim(n)) == ascii_lower(n));
    match st {
        TileStatus::Verified => {
            assert(ascii_lower(n) =~= "verified"@);
            assert(status_of(n) == Ok::<TileStatus, Seq<char>>(TileStatus::Verified));
        },
        TileStatus::Partial => {
            assert(ascii_lower(n) =~= "partial"@);
            assert(status_of(n) == Ok::<TileStatus, Seq<char>>(TileStatus::Partial));
        },
        TileStatus::Failed => {
            assert(ascii_lower(n) =~= "failed"@);
            assert(status_of(n) == Ok::<TileStatus, Seq<char>>(TileStatus::Failed));
        },
        TileStatus::Conjecture => {
            assert(ascii_lower(n) =~= "conjecture"@);
            assert(status_of(n) == Ok::<TileStatus, Seq<char>>(TileStatus::Conjecture));
        },
        TileStatus::Retracted => {
            assert(ascii_lower(n) =~= "retracted"@);
            assert(status_of(n) == Ok::<TileStatus, Seq<char>>(TileStatus::Retracted));
        },
    }
}

/// A key that can head a front-matter line: not empty, no white space,
/// no `:` or line break, and not starting with `-`.
pub open spec fn plain_key(key: Seq<char>) -> bool {
    &&& key.len() > 0
    &&& key[0] != '-'
    &&& forall|i: int| 0 <= i < key.len() ==> !is_white(#[trigger] key[i]) && key[i] != ':'
}

/// A value that can be written on a front-matter line and read back:
/// trimmed, on one line.
pub open spec fn writable_value(v: Seq<char>) -> bool {
    trimmed(v) && lacks(v, '\n')
}

/// A list that can be written as a front-matter value and read back: its
/// items are not empty, trimmed, on one line and without commas.
pub open spec fn writable_list(ds: Seq<Seq<char>>) -> bool {
    forall|i: int|
        0 <= i < ds.len() ==> (#[trigger] ds[i]).len() > 0 && writable_value(ds[i]) && lacks(
            ds[i],
            ',',
        )
}

/// The line `key: value` with its surrounding white space trimmed.
spec fn trimmed_entry_line(key: Seq<char>, v: Seq<char>) -> Seq<char> {
    if v.len() > 0 {
        key + seq![':', ' '] + v
    } else {
        key + seq![':']
    }
}

proof fn lemma_entry_line_trim(key: Seq<char>, v: Seq<char>)
    requires
        plain_key(key),
        writable_value(v),
    ensures
        trim(key + seq![':', ' '] + v) == trimmed_entry_line(key, v),
{
    let l = key + seq![':', ' '] + v;
    assert(!is_white(l[0]));
    assert(trim_start(l) == l);
    if v.len() > 0 {
        assert(l.last() == v.last());
        assert(trim_end(l) == l);
    } else {
        assert(l.drop_last() =~= key + seq![':']);
        assert(is_white(l.last()));
        assert(trim_end(l) == trim_end(l.drop_last()));
        assert(!is_white((key + seq![':']).last()));
        assert(trim_end(l.drop_last()) == key + seq![':']);
    }
}

proof fn lemma_entry_line_find(key: Seq<char>, v: Seq<char>)
    requires
        plain_key(key),
    ensures
        find_char(trimmed_entry_line(key, v), ':') == Some(key.len() as int),
{
    let t = trimmed_entry_line(key, v);
    let n = key.len();
    assert(t[n as int] == ':');
    assert forall|j: int| 0 <= j < n implies t[j] != ':' by {
        assert(t[j] == key[j]);
    }
    assert forall|m: int|
        0 <= m < t.len() && t[m] == ':' && (forall|j: int| 0 <= j < m ==> t[j] != ':') implies m
        == n by {
        if m < n {
            assert(t[m] == key[m]);
        } else if m > n {
            assert(t[n as int] != ':');
        }
    }
}

proof fn lemma_entry_line_parts(key: Seq<char>, v: Seq<char>)
    requires
        plain_key(key),
        writable_value(v),
    ensures
        trim(trimmed_entry_line(key, v).take(key.len() as int)) == key,
        trim(trimmed_entry_line(key, v).skip(key.len() as int + 1)) == v,
{
    let t = trimmed_entry_line(key, v);
    let n = key.len();
    assert(t.take(n as int) =~= key);
    lemma_trimmed(key);
    if v.len() > 0 {
        assert(t.skip(n as int + 1) =~= seq![' '] + v);
        lemma_trim_after_space(v);
    } else {
        assert(t.skip(n as int + 1) =~= v);
    }
}

proof fn lemma_entry_line_shape(key: Seq<char>, v: Seq<char>)
    requires
        plain_key(key),
        writable_value(v),
    ensures
        ({
            let l = key + seq![':', ' '] + v;
            &&& lacks(l, '\n')
            &&& strip_cr(l) == l
            &&& l.len() > 0
        }),
{
    let l = key + seq![':', ' '] + v;
    let n = key.len();
    assert forall|i: int| 0 <= i < l.len() implies l[i] != '\n' by {
        if i < n {
            assert(l[i] == key[i]);
            assert(!is_white(key[i]));
        } else if i >= n + 2 {
            assert(l[i] == v[i - n - 2]);
        }
    }
    if v.len() > 0 {
        assert(l.last() == v.last());
    }
}

/// A line `key: value` reads as that entry, and is no fence.
proof fn lemma_entry_line(key: Seq<char>, v: Seq<char>)
    requires
        plain_key(key),
        writable_value(v),
    ensures
        ({
            let l = key + seq![':', ' '] + v;
            &&& entry_of(l) == Some((key, v))
            &&& !is_fence(l)
            &&& lacks(l, '\n')
            &&& strip_cr(l) == l
            &&& l.len() > 0
        }),
{
    let l = key + seq![':', ' '] + v;
    let t = trimmed_entry_line(key, v);
    lemma_entry_line_trim(key, v);
    lemma_entry_line_find(key, v);
    lemma_entry_line_parts(key, v);
    lemma_entry_line_shape(key, v);
    assert(entry_of(l) == Some((key, v)));
    assert(t[0] == key[0]);
    assert(!is_fence(l)) by {
        if trim(l) == seq!['-', '-', '-'] {
            assert(trim(l)[0] == '-');
        }
    }
}


/// A writable list, joined with `, `, is a writable value.
proof fn lemma_join_list_value(ds: Seq<Seq<char>>)
    requires
        writable_list(ds),
    ensures
        writable_value(join(ds, list_sep())),
        ds.len() > 0 ==> join(ds, list_sep()).len() > 0 && join(ds, list_sep())[0] == ds[0][0],
    decreases ds.len(),
{
    if ds.len() > 1 {
        let ds2 = ds.drop_last();
        let d = ds.last();
        assert(writable_list(ds2)) by {
            assert forall|i: int| 0 <= i < ds2.len() implies (#[trigger] ds2[i]).len() > 0
                && writable_value(ds2[i]) && lacks(ds2[i], ',') by {
                assert(ds2[i] == ds[i]);
            }
        }
        lemma_join_list_value(ds2);
        let j = join(ds2, list_sep());
        assert(d.len() > 0 && writable_value(d));
        let all = j + list_sep() + d;
        assert(join(ds, list_sep()) == all);
        assert(all.last() == d.last());
        assert(all[0] == j[0]);
        assert(ds2[0] == ds[0]);
        assert forall|i: int| 0 <= i < all.len() implies all[i] != '\n' by {
            if i < j.len() {
                assert(all[i] == j[i]);
            } else if i >= j.len() + 2 {
                assert(all[i] == d[i - j.len() - 2]);
            }
        }
    } else if ds.len() == 1 {
        assert(ds[0].len() > 0 && writable_value(ds[0]));
    }
}

/// The value of a key in the entries of lines is that of its last line.
proof fn lemma_entries_of_at(ls: Seq<Seq<char>>, i: int, k: Seq<char>, v: Seq<char>)
    requires
        0 <= i < ls.len(),
        entry_of(ls[i]) == Some((k, v)),
        forall|j: int|
            i < j < ls.len() ==> match entry_of(#[trigger] ls[j]) {
                Some(e) => e.0 != k,
                None => true,
            },
    ensures
        entries_of(ls).contains_key(k),
        entries_of(ls)[k] == v,
    decreases ls.len(),
{
    if i < ls.len() - 1 {
        let ls2 = ls.drop_last();
        assert(ls2[i] == ls[i]);
        assert forall|j: int| i < j < ls2.len() implies match entry_of(#[trigger] ls2[j]) {
            Some(e) => e.0 != k,
            None => true,
        } by {
            assert(ls2[j] == ls[j]);
        }
        lemma_entries_of_at(ls2, i, k, v);
        assert(match entry_of(ls[ls.len() - 1]) {
            Some(e) => e.0 != k,
            None => true,
        });
    }
}



/// What the law on writing and reading a tile asks of the tile's fields
/// and the text of its confidence.
pub open spec fn writable(f: TileFields, confidence: Seq<char>) -> bool {
    &&& writable_value(f.id)
    &&& writable_value(f.room)
    &&& writable_value(f.title)
    &&& writable_value(confidence)
    &&& writable_list(f.dependencies)
    &&& writable_list(f.tags)
    &&& trimmed(f.content)
    &&& no_crlf(f.content)
}

/// The front-matter lines of a writable tile: fences first and last, none
/// in between, each a single line, and each inner one an entry.
proof fn lemma_header(f: TileFields, confidence: Seq<char>)
    requires
        writable(f, confidence),
    ensures
        ({
            let h = header_lines(f, confidence);
            &&& h.len() == 10
            &&& is_fence(h[0])
            &&& is_fence(h[9])
            &&& forall|j: int| 1 <= j < 9 ==> !is_fence(#[trigger] h[j])
            &&& forall|i: int| 0 <= i < 10 ==> lacks(#[trigger] h[i], '\n') && strip_cr(h[i]) == h[i]
            &&& h[8].len() > 0
            &&& entry_of(h[1]) == Some(("id"@, f.id))
            &&& entry_of(h[2]) == Some(("room"@, f.room))
            &&& entry_of(h[3]) == Some(("kind"@, kind_name(f.kind)))
            &&& entry_of(h[4]) == Some(("status"@, status_name(f.status)))
            &&& entry_of(h[5]) == Some(("title"@, f.title))
            &&& entry_of(h[6]) == Some(("confidence"@, confidence))
            &&& entry_of(h[7]) == Some(("dependencies"@, join(f.dependencies, ", "@)))
            &&& entry_of(h[8]) == Some(("tags"@, join(f.tags, ", "@)))
        }),
{
    reveal_strlit("---");
    reveal_strlit(", ");
    reveal_strlit("id: ");
    reveal_strlit("id");
    reveal_strlit("room: ");
    reveal_strlit("room");
    reveal_strlit("kind: ");
    reveal_strlit("kind");
    reveal_strlit("status: ");
    reveal_strlit("status");
    reveal_strlit("title: ");
    reveal_strlit("title");
    reveal_strlit("confidence: ");
    reveal_strlit("confidence");
    reveal_strlit("dependencies: ");
    reveal_strlit("dependencies");
    reveal_strlit("tags: ");
    reveal_strlit("tags");
    let colon = seq![':', ' '];
    assert(", "@ =~= list_sep());
    let fence = "---"@;
    assert(fence =~= seq!['-', '-', '-']);
    lemma_trimmed(fence);
    lemma_kind_name(f.kind);
    lemma_status_name(f.status);
    lemma_join_list_value(f.dependencies);
    lemma_join_list_value(f.tags);
    let deps = join(f.dependencies, list_sep());
    let tags = join(f.tags, list_sep());
    let kn = kind_name(f.kind);
    let sn = status_name(f.status);
    assert("id: "@ =~= "id"@ + colon);
    assert(plain_key("id"@));
    assert("room: "@ =~= "room"@ + colon);
    assert(plain_key("room"@));
    assert("kind: "@ =~= "kind"@ + colon);
    assert(plain_key("kind"@));
    assert("status: "@ =~= "status"@ + colon);
    assert(plain_key("status"@));
    assert("title: "@ =~= "title"@ + colon);
    assert(plain_key("title"@));
    assert("confidence: "@ =~= "confidence"@ + colon);
    assert(plain_key("confidence"@));
    assert("dependencies: "@ =~= "dependencies"@ + colon);
    assert(plain_key("dependencies"@));
    assert("tags: "@ =~= "tags"@ + colon);
    assert(plain_key("tags"@));
    lemma_entry_line("id"@, f.id);
    lemma_entry_line("room"@, f.room);
    lemma_entry_line("kind"@, kn);
    lemma_entry_line("status"@, sn);
    lemma_entry_line("title"@, f.title);
    lemma_entry_line("confidence"@, confidence);
    lemma_entry_line("dependencies"@, deps);
    lemma_entry_line("tags"@, tags);
    let h = header_lines(f, confidence);
    assert(lacks(fence, '\n') && strip_cr(fence) == fence);
}

/// The front matter of a writable tile reads back its values.
proof fn lemma_header_front_matter(f: TileFields, confidence: Seq<char>)
    requires
        writable(f, confidence),
    ensures
        ({
            let front = header_lines(f, confidence).subrange(1, 9);
            let meta = front_matter_of(join(front, "\n"@));
            &&& meta.contains_key("id"@) && meta["id"@] == f.id
            &&& meta.contains_key("room"@) && meta["room"@] == f.room
            &&& meta.contains_key("kind"@) && meta["kind"@] == kind_name(f.kind)
            &&& meta.contains_key("status"@) && meta["status"@] == status_name(f.status)
            &&& meta.contains_key("title"@) && meta["title"@] == f.title
            &&& meta.contains_key("confidence"@) && meta["confidence"@] == confidence
            &&& meta.contains_key("dependencies"@) && meta["dependencies"@] == join(
                f.dependencies,
                ", "@,
            )
            &&& meta.contains_key("tags"@) && meta["tags"@] == join(f.tags, ", "@)
        }),
{
    reveal_strlit("\n");
    reveal_strlit("id");
    reveal_strlit("room");
    reveal_strlit("kind");
    reveal_strlit("status");
    reveal_strlit("title");
    reveal_strlit("confidence");
    reveal_strlit("dependencies");
    reveal_strlit("tags");
    lemma_header(f, confidence);
    let h = header_lines(f, confidence);
    let front = h.subrange(1, 9);
    assert forall|i: int| 0 <= i < front.len() implies lacks(#[trigger] front[i], '\n') && strip_cr(
        front[i],
    ) == front[i] by {
        assert(front[i] == h[i + 1]);
    }
    assert(front.last() == h[8]);
    assert("\n"@ =~= seq!['\n']);
    lemma_lines_of_join(front);
    assert(front[0] == h[1] && front[1] == h[2] && front[2] == h[3] && front[3] == h[4]);
    assert(front[4] == h[5] && front[5] == h[6] && front[6] == h[7] && front[7] == h[8]);
    assert("id"@.len() != "room"@.len());
    assert("id"@.len() != "kind"@.len());
    assert("id"@.len() != "status"@.len());
    assert("id"@.len() != "title"@.len());
    assert("id"@.len() != "confidence"@.len());
    assert("id"@.len() != "dependencies"@.len());
    assert("id"@.len() != "tags"@.len());
    assert("room"@[0] != "kind"@[0]);
    assert("room"@.len() != "status"@.len());
    assert("room"@.len() != "title"@.len());
    assert("room"@.len() != "confidence"@.len());
    assert("room"@.len() != "dependencies"@.len());
    assert("room"@[0] != "tags"@[0]);
    assert("kind"@.len() != "status"@.len());
    assert("kind"@.len() != "title"@.len());
    assert("kind"@.len() != "confidence"@.len());
    assert("kind"@.len() != "dependencies"@.len());
    assert("kind"@[0] != "tags"@[0]);
    assert("status"@.len() != "title"@.len());
    assert("status"@.len() != "confidence"@.len());
    assert("status"@.len() != "dependencies"@.len());
    assert("status"@.len() != "tags"@.len());
    assert("title"@.len() != "confidence"@.len());
    assert("title"@.len() != "dependencies"@.len());
    assert("title"@.len() != "tags"@.len());
    assert("confidence"@.len() != "dependencies"@.len());
    assert("confidence"@.len() != "tags"@.len());
    assert("dependencies"@.len() != "tags"@.len());
    lemma_entries_of_at(front, 0, "id"@, f.id);
    lemma_entries_of_at(front, 1, "room"@, f.room);
    lemma_entries_of_at(front, 2, "kind"@, kind_name(f.kind));
    lemma_entries_of_at(front, 3, "status"@, status_name(f.status));
    lemma_entries_of_at(front, 4, "title"@, f.title);
    lemma_entries_of_at(front, 5, "confidence"@, confidence);
    lemma_entries_of_at(front, 6, "dependencies"@, join(f.dependencies, ", "@));
    lemma_entries_of_at(front, 7, "tags"@, join(f.tags, ", "@));
}

/// Written with `to_markdown` and read back with `from_markdown`, a tile
/// keeps all its fields, and its confidence comes back as the text it was
/// written as. This holds where every value fits on one line without
/// surrounding white space, list items are besides not empty and free of
/// commas, and the content has no surrounding white space and no `\r\n`.
pub proof fn lemma_markdown_roundtrip(f: TileFields, confidence: Seq<char>)
    requires
        writable(f, confidence),
    ensures
        markdown_of(markdown_text(f, confidence)) == Ok::<
            (TileFields, Option<Seq<char>>),
            Seq<char>,
        >((f, Some(confidence))),
{
    reveal_strlit("\n");
    reveal_strlit(", ");
    let nl = seq!['\n'];
    assert("\n"@ =~= nl);
    assert(", "@ =~= list_sep());
    lemma_header(f, confidence);
    lemma_header_front_matter(f, confidence);
    lemma_kind_name(f.kind);
    lemma_status_name(f.status);
    let h = header_lines(f, confidence);
    lemma_lines_of_join_then(h, f.content);
    let md = markdown_text(f, confidence);
    let ls = lines_of(md);
    assert(ls == h + lines_of(f.content));
    assert(ls[0] == h[0]);
    assert forall|j: int| 1 <= j < 9 implies !is_fence(#[trigger] ls[j]) by {
        assert(ls[j] == h[j]);
    }
    assert(ls[9] == h[9]);
    assert(closing_fence(ls, 1) == Some(9int)) by {
        assert forall|m: int|
            1 <= m < ls.len() && is_fence(ls[m]) && (forall|j: int| 1 <= j < m ==> !is_fence(ls[j]))
            implies m == 9 by {
            if m < 9 {
                assert(!is_fence(ls[m]));
            } else if m > 9 {
                assert(is_fence(ls[9]));
            }
        }
    }
    assert(ls.subrange(1, 9) =~= h.subrange(1, 9));
    lemma_list_items_join(f.dependencies);
    lemma_list_items_join(f.tags);
    assert(ls.skip(10) =~= lines_of(f.content));
    if f.content.len() > 0 {
        assert(is_white(f.content.last()) == false);
    }
    lemma_join_lines_of(f.content);
    lemma_trimmed(f.content);
    assert(trim(join(ls.skip(10), "\n"@)) == f.content);
}


/// Each kind is written under its own name.
pub proof fn lemma_kind_names()
    ensures
        kind_name(TileKind::Fact) == seq!['F', 'a', 'c', 't'],
        kind_name(TileKind::Proof) == seq!['P', 'r', 'o', 'o', 'f'],
        kind_name(TileKind::Failure) == seq!['F', 'a', 'i', 'l', 'u', 'r', 'e'],
        kind_name(TileKind::Benchmark) == seq!['B', 'e', 'n', 'c', 'h', 'm', 'a', 'r', 'k'],
        kind_name(TileKind::Code) == seq!['C', 'o', 'd', 'e'],
        kind_name(TileKind::Observation) == seq!['O', 'b', 's', 'e', 'r', 'v', 'a', 't', 'i', 'o', 'n'],
        kind_name(TileKind::Conjecture) == seq!['C', 'o', 'n', 'j', 'e', 'c', 't', 'u', 'r', 'e'],
        kind_name(TileKind::Retracted) == seq!['R', 'e', 't', 'r', 'a', 'c', 't', 'e', 'd'],
{
    reveal_strlit("Fact");
    reveal_strlit("Proof");
    reveal_strlit("Failure");
    reveal_strlit("Benchmark");
    reveal_strlit("Code");
    reveal_strlit("Observation");
    reveal_strlit("Conjecture");
    reveal_strlit("Retracted");
    assert(kind_name(TileKind::Fact) =~= seq!['F', 'a', 'c', 't']);
    assert(kind_name(TileKind::Proof) =~= seq!['P', 'r', 'o', 'o', 'f']);
    assert(kind_name(TileKind::Failure) =~= seq!['F', 'a', 'i', 'l', 'u', 'r', 'e']);
    assert(kind_name(TileKind::Benchmark) =~= seq!['B', 'e', 'n', 'c', 'h', 'm', 'a', 'r', 'k']);
    assert(kind_name(TileKind::Code) =~= seq!['C', 'o', 'd', 'e']);
    assert(kind_name(TileKind::Observation) =~= seq!['O', 'b', 's', 'e', 'r', 'v', 'a', 't', 'i', 'o', 'n']);
    assert(kind_name(TileKind::Conjecture) =~= seq!['C', 'o', 'n', 'j', 'e', 'c', 't', 'u', 'r', 'e']);
    assert(kind_name(TileKind::Retracted) =~= seq!['R', 'e', 't', 'r', 'a', 'c', 't', 'e', 'd']);
}

/// The name of a kind, in capitals or small letters and with
/// white space around it, reads as that kind.
pub proof fn lemma_kind_words(s: Seq<char>)
    requires
        is_ascii_text(trim(s)),
    ensures
        ascii_lower(trim(s)) == seq!['f', 'a', 'c', 't'] ==> kind_of(s) == Ok::<TileKind, Seq<char>>(TileKind::Fact),
        ascii_lower(trim(s)) == seq!['p', 'r', 'o', 'o', 'f'] ==> kind_of(s) == Ok::<TileKind, Seq<char>>(TileKind::Proof),
        ascii_lower(trim(s)) == seq!['f', 'a', 'i', 'l', 'u', 'r', 'e'] ==> kind_of(s) == Ok::<TileKind, Seq<char>>(TileKind::Failure),
        ascii_lower(trim(s)) == seq!['b', 'e', 'n', 'c', 'h', 'm', 'a', 'r', 'k'] ==> kind_of(s) == Ok::<TileKind, Seq<char>>(TileKind::Benchmark),
        ascii_lower(trim(s)) == seq!['c', 'o', 'd', 'e'] ==> kind_of(s) == Ok::<TileKind, Seq<char>>(TileKind::Code),
        ascii_lower(trim(s)) == seq!['o', 'b', 's', 'e', 'r', 'v', 'a', 't', 'i', 'o', 'n'] ==> kind_of(s) == Ok::<TileKind, Seq<char>>(TileKind::Observation),
        ascii_lower(trim(s)) == seq!['c', 'o', 'n', 'j', 'e', 'c', 't', 'u', 'r', 'e'] ==> kind_of(s) == Ok::<TileKind, Seq<char>>(TileKind::Conjecture),
        ascii_lower(trim(s)) == seq!['r', 'e', 't', 'r', 'a', 'c', 't', 'e', 'd'] ==> kind_of(s) == Ok::<TileKind, Seq<char>>(TileKind::Retracted),
{
    reveal_strlit("fact");
    reveal_strlit("proof");
    reveal_strlit("failure");
    reveal_strlit("benchmark");
    reveal_strlit("code");
    reveal_strlit("observation");
    reveal_strlit("conjecture");
    reveal_strlit("retracted");
    assert("fact"@ =~= seq!['f', 'a', 'c', 't']);
    assert("proof"@ =~= seq!['p', 'r', 'o', 'o', 'f']);
    assert("failure"@ =~= seq!['f', 'a', 'i', 'l', 'u', 'r', 'e']);
    assert("benchmark"@ =~= seq!['b', 'e', 'n', 'c', 'h', 'm', 'a', 'r', 'k']);
    assert("code"@ =~= seq!['c', 'o', 'd', 'e']);
    assert("observation"@ =~= seq!['o', 'b', 's', 'e', 'r', 'v', 'a', 't', 'i', 'o', 'n']);
    assert("conjecture"@ =~= seq!['c', 'o', 'n', 'j', 'e', 'c', 't', 'u', 'r', 'e']);
    assert("retracted"@ =~= seq!['r', 'e', 't', 'r', 'a', 'c', 't', 'e', 'd']);
    assert("fact"@[0] != "code"@[0]);
    assert("benchmark"@[0] != "retracted"@[0]);
    assert(lower(trim(s)) == ascii_lower(trim(s)));
}

/// Each status is written under its own name.
pub proof fn lemma_status_names()
    ensures
        status_name(TileStatus::Verified) == seq!['V', 'e', 'r', 'i', 'f', 'i', 'e', 'd'],
        status_name(TileStatus::Partial) == seq!['P', 'a', 'r', 't', 'i', 'a', 'l'],
        status_name(TileStatus::Failed) == seq!['F', 'a', 'i', 'l', 'e', 'd'],
        status_name(TileStatus::Conjecture) == seq!['C', 'o', 'n', 'j', 'e', 'c', 't', 'u', 'r', 'e'],
        status_name(TileStatus::Retracted) == seq!['R', 'e', 't', 'r', 'a', 'c', 't', 'e', 'd'],
{
    reveal_strlit("Verified");
    reveal_strlit("Partial");
    reveal_strlit("Failed");
    reveal_strlit("Conjecture");
    reveal_strlit("Retracted");
    assert(status_name(TileStatus::Verified) =~= seq!['V', 'e', 'r', 'i', 'f', 'i', 'e', 'd']);
    assert(status_name(TileStatus::Partial) =~= seq!['P', 'a', 'r', 't', 'i', 'a', 'l']);
    assert(status_name(TileStatus::Failed) =~= seq!['F', 'a', 'i', 'l', 'e', 'd']);
    assert(status_name(TileStatus::Conjecture) =~= seq!['C', 'o', 'n', 'j', 'e', 'c', 't', 'u', 'r', 'e']);
    assert(status_name(TileStatus::Retracted) =~= seq!['R', 'e', 't', 'r', 'a', 'c', 't', 'e', 'd']);
}

/// The name of a status, in capitals or small letters and with
/// white space around it, reads as that status.
pub proof fn lemma_status_words(s: Seq<char>)
    requires
        is_ascii_text(trim(s)),
    ensures
        ascii_lower(trim(s)) == seq!['v', 'e', 'r', 'i', 'f', 'i', 'e', 'd'] ==> status_of(s) == Ok::<TileStatus, Seq<char>>(TileStatus::Verified),
        ascii_lower(trim(s)) == seq!['p', 'a', 'r', 't', 'i', 'a', 'l'] ==> status_of(s) == Ok::<TileStatus, Seq<char>>(TileStatus::Partial),
        ascii_lower(trim(s)) == seq!['f', 'a', 'i', 'l', 'e', 'd'] ==> status_of(s) == Ok::<TileStatus, Seq<char>>(TileStatus::Failed),
        ascii_lower(trim(s)) == seq!['c', 'o', 'n', 'j', 'e', 'c', 't', 'u', 'r', 'e'] ==> status_of(s) == Ok::<TileStatus, Seq<char>>(TileStatus::Conjecture),
        ascii_lower(trim(s)) == seq!['r', 'e', 't', 'r', 'a', 'c', 't', 'e', 'd'] ==> status_of(s) == Ok::<TileStatus, Seq<char>>(TileStatus::Retracted),
{
    reveal_strlit("verified");
    reveal_strlit("partial");
    reveal_strlit("failed");
    reveal_strlit("conjecture");
    reveal_strlit("retracted");
    assert("verified"@ =~= seq!['v', 'e', 'r', 'i', 'f', 'i', 'e', 'd']);
    assert("partial"@ =~= seq!['p', 'a', 'r', 't', 'i', 'a', 'l']);
    assert("failed"@ =~= seq!['f', 'a', 'i', 'l', 'e', 'd']);
    assert("conjecture"@ =~= seq!['c', 'o', 'n', 'j', 'e', 'c', 't', 'u', 'r', 'e']);
    assert("retracted"@ =~= seq!['r', 'e', 't', 'r', 'a', 'c', 't', 'e', 'd']);

    assert(lower(trim(s)) == ascii_lower(trim(s)));
}

/// A tile is a failure exactly when its kind is `Failure` or its status is
/// `Failed`, whatever the other field holds.
pub proof fn lemma_failure_exact<C>(t: Tile<C>)
    ensures
        t.spec_is_failure() <==> (t.kind == TileKind::Failure || t.status == TileStatus::Failed),
{
}

} // verus!
