//! Configuration data for the quest engine: the raw level mapping, the
//! per-level answer key specification, display strings and colors, and the
//! attachment table.

use vstd::prelude::*;

verus! {

/// How a level's answer is checked: an exact secret string, an external
/// checker command, or no check at all.
pub enum Key {
    Exact(String),
    Checker(String),
    Open,
}

impl Clone for Key {
    fn clone(&self) -> (r: Self)
        ensures
            r@ == self@,
    {
        match self {
            Key::Exact(s) => Key::Exact(s.clone()),
            Key::Checker(s) => Key::Checker(s.clone()),
            Key::Open => Key::Open,
        }
    }
}

/// Spec-level value of a [`Key`].
pub enum KeyV {
    Exact(Seq<char>),
    Checker(Seq<char>),
    Open,
}

impl View for Key {
    type V = KeyV;

    open spec fn view(&self) -> KeyV {
        match self {
            Key::Exact(s) => KeyV::Exact(s@),
            Key::Checker(s) => KeyV::Checker(s@),
            Key::Open => KeyV::Open,
        }
    }
}

/// A forward edge in the raw configuration: the caption shown on the link and
/// the identifier of the target level.
pub struct Next {
    pub caption: String,
    pub to: String,
}

/// Spec-level value of a [`Next`] edge: caption and target identifier.
pub struct NextV {
    pub caption: Seq<char>,
    pub to: Seq<char>,
}

impl View for Next {
    type V = NextV;

    open spec fn view(&self) -> NextV {
        NextV { caption: self.caption@, to: self.to@ }
    }
}

/// A captioned reference to a level, as used by the presentation layer.
pub struct Link {
    pub caption: String,
    pub to: String,
}

/// Default text for a rejected answer.
pub fn wrong_answer() -> (r: String)
    ensures
        r@ == "Wrong answer"@,
{
    "Wrong answer".to_owned()
}

/// Default caption for the link leading back from a rejection page.
pub fn back() -> (r: String)
    ensures
        r@ == "Go back"@,
{
    "Go back".to_owned()
}

/// Default identifier of the entry level.
pub fn start_level() -> (r: String)
    ensures
        r@ == "start"@,
{
    "start".to_owned()
}

/// Default text for a missing level.
pub fn not_found() -> (r: String)
    ensures
        r@ == "404 Level not found"@,
{
    "404 Level not found".to_owned()
}

/// Default primary color.
pub fn color_primary() -> (r: String)
    ensures
        r@ == "#ffffff"@,
{
    "#ffffff".to_owned()
}

/// Default secondary color.
pub fn color_secondary() -> (r: String)
    ensures
        r@ == "#00ffff"@,
{
    "#00ffff".to_owned()
}

/// Default background color.
pub fn color_background() -> (r: String)
    ensures
        r@ == "#ffffff"@,
{
    "#ffffff".to_owned()
}

/// The color scheme of the rendered pages.
pub struct Colors {
    pub primary: String,
    pub secondary: String,
    pub background: String,
}

impl Default for Colors {
    fn default() -> (r: Self)
        ensures
            r.primary@ == "#ffffff"@,
            r.secondary@ == "#00ffff"@,
            r.background@ == "#ffffff"@,
    {
        Colors {
            primary: color_primary(),
            secondary: color_secondary(),
            background: color_background(),
        }
    }
}

/// The fixed texts of the served pages.
pub struct Strings {
    pub name: String,
    pub wrong_answer: String,
    pub back: String,
    pub not_found: String,
}

/// One level of the raw configuration. The `id` field is always assigned from
/// the level's key in the enclosing mapping (see [`Levels::insert`]), never
/// taken from the record body.
pub struct Level {
    pub id: String,
    pub legend: String,
    pub next: Option<Next>,
    pub key: Key,
}

/// Spec-level value of a configured [`Level`] and, equally, of a built graph
/// node: identifier, legend text, optional forward edge, answer key.
pub struct LevelV {
    pub id: Seq<char>,
    pub legend: Seq<char>,
    pub next: Option<NextV>,
    pub key: KeyV,
}

impl View for Level {
    type V = LevelV;

    open spec fn view(&self) -> LevelV {
        LevelV {
            id: self.id@,
            legend: self.legend@,
            next: match self.next {
                Some(ref n) => Some(n@),
                None => None,
            },
            key: self.key@,
        }
    }
}

/// Whether some entry of `s` carries the identifier `id`.
pub open spec fn has_id(s: Seq<LevelV>, id: Seq<char>) -> bool {
    exists|i: int| 0 <= i < s.len() && s[i].id == id
}

/// An index of the entry of `s` carrying `id` (meaningful when `has_id`).
pub open spec fn id_index(s: Seq<LevelV>, id: Seq<char>) -> int {
    choose|i: int| 0 <= i < s.len() && s[i].id == id
}

/// The entry of `s` carrying the identifier `id`, if any.
pub open spec fn lookup(s: Seq<LevelV>, id: Seq<char>) -> Option<LevelV> {
    if has_id(s, id) {
        Some(s[id_index(s, id)])
    } else {
        None
    }
}

/// No two entries of `s` carry the same identifier.
pub open spec fn distinct_ids(s: Seq<LevelV>) -> bool {
    forall|i: int, j: int| 0 <= i < j < s.len() ==> s[i].id != s[j].id
}

/// Under distinct identifiers, the entry found for `s[i].id` is `s[i]` itself.
pub proof fn lemma_lookup_at(s: Seq<LevelV>, i: int)
    requires
        distinct_ids(s),
        0 <= i < s.len(),
    ensures
        has_id(s, s[i].id),
        lookup(s, s[i].id) == Some(s[i]),
{
    assert(has_id(s, s[i].id));
    let k = id_index(s, s[i].id);
    assert(0 <= k < s.len() && s[k].id == s[i].id);
    assert(k == i);
}

/// Under distinct identifiers, `lookup` finds exactly the values that occur in
/// the sequence under their own identifier.
pub proof fn lemma_lookup_iff(s: Seq<LevelV>, id: Seq<char>, l: LevelV)
    requires
        distinct_ids(s),
    ensures
        lookup(s, id) == Some(l) <==> (l.id == id && exists|i: int|
            0 <= i < s.len() && s[i] == l),
{
    if lookup(s, id) == Some(l) {
        let k = id_index(s, id);
        assert(0 <= k < s.len() && s[k].id == id);
        assert(s[k] == l);
    }
    if l.id == id && exists|i: int| 0 <= i < s.len() && s[i] == l {
        let i = choose|i: int| 0 <= i < s.len() && s[i] == l;
        lemma_lookup_at(s, i);
    }
}

/// The level mapping of a configuration: an association table from level
/// identifier to level definition, with each identifier occurring once.
pub struct Levels {
    entries: Vec<Level>,
}

impl View for Levels {
    type V = Seq<LevelV>;

    closed spec fn view(&self) -> Seq<LevelV> {
        self.entries@.map_values(|l: Level| l@)
    }
}

impl Levels {
    /// Each identifier names at most one level.
    pub open spec fn wf(&self) -> bool {
        distinct_ids(self@)
    }

    /// An empty mapping.
    pub fn new() -> (r: Self)
        ensures
            r@ =~= Seq::<LevelV>::empty(),
            r.wf(),
    {
        Levels { entries: Vec::new() }
    }

    /// The number of levels configured.
    pub fn len(&self) -> (n: usize)
        ensures
            n == self@.len(),
    {
        self.entries.len()
    }

    /// The level at position `i` of the table.
    pub fn entry_at(&self, i: usize) -> (l: &Level)
        requires
            i < self@.len(),
        ensures
            l@ == self@[i as int],
    {
        &self.entries[i]
    }

    /// The level configured under `id`, if any.
    pub fn get(&self, id: &str) -> (r: Option<&Level>)
        requires
            self.wf(),
        ensures
            match r {
                Some(l) => lookup(self@, id@) == Some(l@),
                None => !has_id(self@, id@),
            },
    {
        let key: String = id.to_owned();
        let n = self.entries.len();
        let mut j: usize = 0;
        while j < n
            invariant
                n == self@.len(),
                j <= n,
                self.wf(),
                key@ == id@,
                forall|k: int| 0 <= k < j ==> self@[k].id != id@,
            decreases n - j,
        {
            if self.entries[j].id == key {
                proof {
                    lemma_lookup_at(self@, j as int);
                }
                return Some(&self.entries[j]);
            }
            j += 1;
        }
        proof {
            assert(forall|k: int| 0 <= k < self@.len() ==> self@[k].id != id@);
        }
        None
    }

    /// Inserts `level` under the identifier `id`, replacing any level already
    /// configured under it. The stored level's `id` field is assigned from
    /// `id`; whatever the record body carried there is discarded.
    pub fn insert(&mut self, id: String, level: Level)
        requires
            old(self).wf(),
        ensures
            final(self).wf(),
            lookup(final(self)@, id@) == Some(
                LevelV { id: id@, ..level@ },
            ),
            forall|x: Seq<char>| x != id@ ==> lookup(final(self)@, x) == lookup(
                old(self)@,
                x,
            ),
    {
        let ghost old_view = self@;
        let mut lev = level;
        let n = self.entries.len();
        let mut j: usize = 0;
        let mut found: bool = false;
        let mut at: usize = 0;
        while j < n
            invariant
                n == self@.len(),
                j <= n,
                self@ == old_view,
                found ==> at < n && self@[at as int].id == id@,
                !found ==> forall|k: int| 0 <= k < j ==> self@[k].id != id@,
            decreases n - j,
        {
            if !found && self.entries[j].id == id {
                found = true;
                at = j;
            }
            j += 1;
        }
        if found {
            self.entries.remove(at);
        }
        lev.id = id;
        self.entries.push(lev);
        proof {
            let levv = LevelV { id: id@, ..level@ };
            let mid: Seq<LevelV> = if found {
                old_view.remove(at as int)
            } else {
                old_view
            };
            let nv = self@;
            assert(nv =~= mid.push(levv));
            // No surviving entry carries `id`, so the new table is distinct.
            assert forall|k: int| 0 <= k < mid.len() implies mid[k].id != id@ by {
                if found {
                    assert(mid[k] == if k < at as int {
                        old_view[k]
                    } else {
                        old_view[k + 1]
                    });
                }
            }
            assert(distinct_ids(nv));
            lemma_lookup_at(nv, mid.len() as int);
            assert(lookup(nv, id@) == Some(levv));
            assert forall|x: Seq<char>| x != id@ implies lookup(nv, x) == lookup(
                old_view,
                x,
            ) by {
                if has_id(old_view, x) {
                    let k = id_index(old_view, x);
                    assert(0 <= k < old_view.len() && old_view[k].id == x);
                    // The entry survives, possibly shifted one slot down.
                    let k2: int = if found && k > at as int {
                        k - 1
                    } else {
                        k
                    };
                    assert(nv[k2] == old_view[k]);
                    lemma_lookup_iff(nv, x, old_view[k]);
                    assert(lookup(nv, x) == Some(old_view[k]));
                } else {
                    assert(!has_id(nv, x)) by {
                        if has_id(nv, x) {
                            let k = id_index(nv, x);
                            assert(0 <= k < nv.len() && nv[k].id == x);
                            if k < mid.len() as int {
                                if found {
                                    assert(mid[k] == if k < at as int {
                                        old_view[k]
                                    } else {
                                        old_view[k + 1]
                                    });
                                }
                                assert(has_id(old_view, x));
                            }
                        }
                    }
                }
            }
        }
    }
}


/// One attachment exposed by the configuration: the public file name under
/// which it is served, and the path it is read from.
pub struct Attachment {
    pub name: String,
    pub path: String,
}

/// Spec-level value of an [`Attachment`].
pub struct AttachmentV {
    pub name: Seq<char>,
    pub path: Seq<char>,
}

impl View for Attachment {
    type V = AttachmentV;

    open spec fn view(&self) -> AttachmentV {
        AttachmentV { name: self.name@, path: self.path@ }
    }
}

/// Whether some attachment of `s` is served under `name`.
pub open spec fn has_name(s: Seq<AttachmentV>, name: Seq<char>) -> bool {
    exists|i: int| 0 <= i < s.len() && s[i].name == name
}

/// An index of the attachment of `s` served under `name` (meaningful when
/// `has_name`).
pub open spec fn name_index(s: Seq<AttachmentV>, name: Seq<char>) -> int {
    choose|i: int| 0 <= i < s.len() && s[i].name == name
}

/// The path behind the attachment served under `name`, if any.
pub open spec fn path_of(s: Seq<AttachmentV>, name: Seq<char>) -> Option<Seq<char>> {
    if has_name(s, name) {
        Some(s[name_index(s, name)].path)
    } else {
        None
    }
}

/// No two attachments of `s` are served under the same name.
pub open spec fn distinct_names(s: Seq<AttachmentV>) -> bool {
    forall|i: int, j: int| 0 <= i < j < s.len() ==> s[i].name != s[j].name
}

/// Under distinct names, the path found for `s[i].name` is `s[i].path`.
pub proof fn lemma_attachment_at(s: Seq<AttachmentV>, i: int)
    requires
        distinct_names(s),
        0 <= i < s.len(),
    ensures
        has_name(s, s[i].name),
        path_of(s, s[i].name) == Some(s[i].path),
{
    assert(has_name(s, s[i].name));
    let k = name_index(s, s[i].name);
    assert(0 <= k < s.len() && s[k].name == s[i].name);
    assert(k == i);
}

/// The attachment table of a configuration: an association table from public
/// file name to source path, with each name occurring once.
pub struct Attachments {
    entries: Vec<Attachment>,
}

impl View for Attachments {
    type V = Seq<AttachmentV>;

    closed spec fn view(&self) -> Seq<AttachmentV> {
        self.entries@.map_values(|a: Attachment| a@)
    }
}

impl Default for Attachments {
    fn default() -> (r: Self)
        ensures
            r@ =~= Seq::<AttachmentV>::empty(),
            r.wf(),
    {
        Attachments { entries: Vec::new() }
    }
}

impl Attachments {
    /// Each public name serves at most one path.
    pub open spec fn wf(&self) -> bool {
        distinct_names(self@)
    }

    /// An empty table.
    pub fn new() -> (r: Self)
        ensures
            r@ =~= Seq::<AttachmentV>::empty(),
            r.wf(),
    {
        Attachments { entries: Vec::new() }
    }

    /// The path serving the attachment named `name`, if any.
    pub fn get(&self, name: &str) -> (r: Option<&String>)
        requires
            self.wf(),
        ensures
            match r {
                Some(p) => path_of(self@, name@) == Some(p@),
                None => !has_name(self@, name@),
            },
    {
        let key: String = name.to_owned();
        let n = self.entries.len();
        let mut j: usize = 0;
        while j < n
            invariant
                n == self@.len(),
                j <= n,
                self.wf(),
                key@ == name@,
                forall|k: int| 0 <= k < j ==> self@[k].name != name@,
            decreases n - j,
        {
            if self.entries[j].name == key {
                proof {
                    lemma_attachment_at(self@, j as int);
                }
                return Some(&self.entries[j].path);
            }
            j += 1;
        }
        None
    }

    /// Exposes `path` under the public file name `name`, replacing any
    /// attachment already served under that name.
    pub fn insert(&mut self, name: String, path: String)
        requires
            old(self).wf(),
        ensures
            final(self).wf(),
            path_of(final(self)@, name@) == Some(path@),
            forall|x: Seq<char>| x != name@ ==> path_of(final(self)@, x) == path_of(
                old(self)@,
                x,
            ),
    {
        let ghost old_view = self@;
        let n = self.entries.len();
        let mut j: usize = 0;
        let mut found: bool = false;
        let mut at: usize = 0;
        while j < n
            invariant
                n == self@.len(),
                j <= n,
                self@ == old_view,
                found ==> at < n && self@[at as int].name == name@,
                !found ==> forall|k: int| 0 <= k < j ==> self@[k].name != name@,
            decreases n - j,
        {
            if !found && self.entries[j].name == name {
                found = true;
                at = j;
            }
            j += 1;
        }
        if found {
            self.entries.remove(at);
        }
        self.entries.push(Attachment { name, path });
        proof {
            let av = AttachmentV { name: name@, path: path@ };
            let mid: Seq<AttachmentV> = if found {
                old_view.remove(at as int)
            } else {
                old_view
            };
            let nv = self@;
            assert(nv =~= mid.push(av));
            assert forall|k: int| 0 <= k < mid.len() implies mid[k].name != name@ by {
                if found {
                    assert(mid[k] == if k < at as int {
                        old_view[k]
                    } else {
                        old_view[k + 1]
                    });
                }
            }
            assert(distinct_names(nv));
            lemma_attachment_at(nv, mid.len() as int);
            assert forall|x: Seq<char>| x != name@ implies path_of(nv, x) == path_of(
                old_view,
                x,
            ) by {
                if has_name(old_view, x) {
                    let k = name_index(old_view, x);
                    assert(0 <= k < old_view.len() && old_view[k].name == x);
                    let k2: int = if found && k > at as int {
                        k - 1
                    } else {
                        k
                    };
                    assert(nv[k2] == old_view[k]);
                    lemma_attachment_at(nv, k2);
                } else {
                    assert(!has_name(nv, x)) by {
                        if has_name(nv, x) {
                            let k = name_index(nv, x);
                            assert(0 <= k < nv.len() && nv[k].name == x);
                            if k < mid.len() as int {
                                if found {
                                    assert(mid[k] == if k < at as int {
                                        old_view[k]
                                    } else {
                                        old_view[k + 1]
                                    });
                                }
                                assert(has_name(old_view, x));
                            }
                        }
                    }
                }
            }
        }
    }
}

/// A fully loaded configuration: page texts, the level mapping, the
/// attachment table, the declared entry level, and the color scheme.
pub struct Config {
    pub strings: Strings,
    pub levels: Levels,
    pub attachments: Attachments,
    pub start: String,
    pub colors: Colors,
}


/// The file-name component of a path: the longest suffix holding no `/`
/// separator. Empty exactly when the path is empty or ends in a separator.
pub open spec fn file_name_of(p: Seq<char>) -> Seq<char>
    decreases p.len(),
{
    if p.len() == 0 {
        p
    } else if p.last() == '/' {
        Seq::empty()
    } else {
        file_name_of(p.drop_last()).push(p.last())
    }
}

/// The file-name component is the subrange that starts right after the last
/// separator.
proof fn lemma_file_name_subrange(p: Seq<char>, start: int)
    requires
        0 <= start <= p.len(),
        forall|k: int| start <= k < p.len() ==> p[k] != '/',
        start > 0 ==> p[start - 1] == '/',
    ensures
        file_name_of(p) == p.subrange(start, p.len() as int),
    decreases p.len(),
{
    if p.len() == 0 {
        assert(p =~= p.subrange(0, 0));
    } else if start == p.len() {
        assert(p.last() == '/');
        assert(file_name_of(p) =~= p.subrange(start, p.len() as int));
    } else {
        assert(p.last() != '/');
        lemma_file_name_subrange(p.drop_last(), start);
        assert(file_name_of(p) == p.drop_last().subrange(
            start,
            p.len() - 1,
        ).push(p.last()));
        assert(p.drop_last().subrange(start, p.len() - 1).push(p.last()) =~= p.subrange(
            start,
            p.len() as int,
        ));
    }
}

impl Attachments {
    /// The public file name a path is exposed under: the text after the last
    /// `/` separator. Nothing is returned when that text is empty — for an
    /// empty path or one ending in a separator, which names no file.
    pub fn file_name(path: &str) -> (r: Option<String>)
        ensures
            match r {
                Some(s) => s@ == file_name_of(path@) && s@.len() > 0,
                None => file_name_of(path@).len() == 0,
            },
    {
        let n = path.unicode_len();
        let mut i: usize = 0;
        let mut start: usize = 0;
        while i < n
            invariant
                n == path@.len(),
                i <= n,
                start <= i,
                forall|k: int| start <= k < i ==> path@[k] != '/',
                start > 0 ==> path@[start - 1] == '/',
            decreases n - i,
        {
            let c = path.get_char(i);
            if c == '/' {
                start = i + 1;
            }
            i += 1;
        }
        proof {
            lemma_file_name_subrange(path@, start as int);
        }
        if start == n {
            return None;
        }
        let s = path.substring_char(start, n);
        Some(s.to_owned())
    }
}

} // verus!
