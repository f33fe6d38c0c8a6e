//! Unix paths as text, `~` expansion and home-directory lookup.
//!
//! A path is compared by its components, never by its text: `/a//b/` and
//! `/a/./b` name the same place.

use vstd::prelude::*;

use crate::text;
use crate::text::{lemma_pieces_clean, lemma_pieces_join, lemma_pieces_nonempty, lemma_pieces_single, pieces};

verus! {

/// One component of a path, as a mathematical value.
pub enum Part {
    /// The leading `/`.
    Root,
    /// A leading `.`.
    Current,
    /// `..`
    Parent,
    /// A name.
    Name(Seq<char>),
}

/// The component that the piece `seg` between two separators stands for. A
/// `.` counts only as the first piece of a relative path.
pub open spec fn parts_of_piece(seg: Seq<char>, first: bool) -> Seq<Part> {
    if seg == Seq::<char>::empty() {
        Seq::empty()
    } else if seg == seq!['.'] {
        if first {
            seq![Part::Current]
        } else {
            Seq::empty()
        }
    } else if seg == seq!['.', '.'] {
        seq![Part::Parent]
    } else {
        seq![Part::Name(seg)]
    }
}

/// The components that a list of pieces stands for, `first` telling whether
/// the list stands at the start of a path.
pub open spec fn parts_of_pieces(segs: Seq<Seq<char>>, first: bool) -> Seq<Part>
    decreases segs.len(),
{
    if segs.len() == 0 {
        Seq::empty()
    } else {
        parts_of_pieces(segs.drop_last(), first) + parts_of_piece(segs.last(), first && segs.len() == 1)
    }
}

/// The components of the path written `s`.
pub open spec fn parts(s: Seq<char>) -> Seq<Part> {
    let body = parts_of_pieces(pieces(s, '/'), true);
    if absolute(s) {
        seq![Part::Root] + body
    } else {
        body
    }
}

/// The path written `s` starts at the root.
pub open spec fn absolute(s: Seq<char>) -> bool {
    s.len() > 0 && s[0] == '/'
}

/// Two texts name the same path.
pub open spec fn same_path(a: Seq<char>, b: Seq<char>) -> bool {
    parts(a) == parts(b)
}

/// `path` is `root` or lies beneath it, component by component.
pub open spec fn under(path: Seq<char>, root: Seq<char>) -> bool {
    parts(root).is_prefix_of(parts(path))
}

/// A path as it is shown below `root`: without the part they share.
pub open spec fn shown_below(path: Seq<char>, root: Seq<char>) -> Seq<char> {
    if under(path, root) {
        path_text(parts(path).skip(parts(root).len() as int))
    } else {
        path
    }
}

/// `base` followed by `rel`; an absolute `rel` stands alone.
pub open spec fn joined(base: Seq<char>, rel: Seq<char>) -> Seq<char> {
    if absolute(rel) || base.len() == 0 {
        rel
    } else if base.last() == '/' {
        base + rel
    } else {
        base.push('/') + rel
    }
}

/// The text of one component.
pub open spec fn part_text(p: Part) -> Seq<char> {
    match p {
        Part::Root => seq!['/'],
        Part::Current => seq!['.'],
        Part::Parent => seq!['.', '.'],
        Part::Name(name) => name,
    }
}

/// The shortest text with the components `ps`.
pub open spec fn path_text(ps: Seq<Part>) -> Seq<char>
    decreases ps.len(),
{
    if ps.len() == 0 {
        Seq::empty()
    } else {
        joined(path_text(ps.drop_last()), part_text(ps.last()))
    }
}

/// `name` can stand between two separators as a name.
pub open spec fn is_name(name: Seq<char>) -> bool {
    &&& name.len() > 0
    &&& name != seq!['.']
    &&& name != seq!['.', '.']
    &&& forall|i: int| 0 <= i < name.len() ==> name[i] != '/'
}

/// `ps` are the components of some path: the root and `.` only in front.
pub open spec fn well_formed(ps: Seq<Part>) -> bool {
    forall|i: int|
        0 <= i < ps.len() ==> match #[trigger] ps[i] {
            Part::Root => i == 0,
            Part::Current => i == 0,
            Part::Parent => true,
            Part::Name(name) => is_name(name),
        }
}

/// `ps` with every `.` left out and every `..` resolved against the component
/// before it. A `..` at the top is dropped.
pub open spec fn normal_parts(ps: Seq<Part>) -> Seq<Part>
    decreases ps.len(),
{
    if ps.len() == 0 {
        Seq::empty()
    } else {
        let before = normal_parts(ps.drop_last());
        match ps.last() {
            Part::Parent => if before.len() > 0 && before.last() is Name {
                before.drop_last()
            } else {
                before
            },
            Part::Current => before,
            other => before.push(other),
        }
    }
}

/// The last component, if it is a name.
pub open spec fn last_name(s: Seq<char>) -> Option<Seq<char>> {
    if parts(s).len() > 0 {
        match parts(s).last() {
            Part::Name(name) => Some(name),
            _ => None,
        }
    } else {
        None
    }
}

/// The path written `s` has a component to take away.
pub open spec fn has_parent(s: Seq<char>) -> bool {
    parts(s).len() > 0 && parts(s).last() !is Root
}

/// The path written `s` without its last component.
pub open spec fn parent_text(s: Seq<char>) -> Seq<char> {
    path_text(parts(s).drop_last())
}

/// The position of the last `c` in `s`, or -1.
pub open spec fn last_position(s: Seq<char>, c: char) -> int
    decreases s.len(),
{
    if s.len() == 0 {
        -1
    } else if s.last() == c {
        s.len() - 1
    } else {
        last_position(s.drop_last(), c)
    }
}

/// The part of a file name before its extension.
pub open spec fn stem_of(name: Seq<char>) -> Seq<char> {
    let dot = last_position(name, '.');
    if dot > 0 {
        name.take(dot)
    } else {
        name
    }
}

/// The extension of a file name: what follows a last dot that is not the
/// first character.
pub open spec fn extension_of(name: Seq<char>) -> Option<Seq<char>> {
    let dot = last_position(name, '.');
    if dot > 0 {
        Some(name.skip(dot + 1))
    } else {
        None
    }
}

proof fn lemma_parts_of_pieces_join(a: Seq<Seq<char>>, b: Seq<Seq<char>>)
    requires
        a.len() > 0,
    ensures
        parts_of_pieces(a + b, true) == parts_of_pieces(a, true) + parts_of_pieces(b, false),
    decreases b.len(),
{
    if b.len() == 0 {
        assert(a + b =~= a);
        assert(parts_of_pieces(a, true) + parts_of_pieces(b, false) =~= parts_of_pieces(a, true));
    } else {
        assert((a + b).drop_last() =~= a + b.drop_last());
        lemma_parts_of_pieces_join(a, b.drop_last());
        assert(parts_of_pieces(a + b, true) =~= parts_of_pieces(a, true) + parts_of_pieces(b, false));
    }
}

/// Joining a relative path to a base appends its components; a leading `.` of
/// the relative path disappears.
pub proof fn lemma_parts_joined(base: Seq<char>, rel: Seq<char>)
    requires
        base.len() > 0,
        !absolute(rel),
    ensures
        parts(joined(base, rel)) == parts(base) + parts_of_pieces(pieces(rel, '/'), false),
{
    let whole = joined(base, rel);
    if base.last() == '/' {
        let short = base.drop_last();
        assert(base =~= short.push('/') + Seq::<char>::empty());
        assert(whole =~= short.push('/') + rel);
        lemma_pieces_join(short, rel, '/');
        lemma_pieces_join(short, Seq::empty(), '/');
        lemma_pieces_nonempty(short, '/');
        lemma_parts_of_pieces_join(pieces(short, '/'), pieces(rel, '/'));
        lemma_parts_of_pieces_join(pieces(short, '/'), pieces(Seq::empty(), '/'));
        assert(parts_of_pieces(pieces(Seq::empty(), '/'), false) =~= Seq::<Part>::empty()) by {
            reveal_with_fuel(parts_of_pieces, 3);
        }
    } else {
        lemma_pieces_join(base, rel, '/');
        lemma_pieces_nonempty(base, '/');
        lemma_parts_of_pieces_join(pieces(base, '/'), pieces(rel, '/'));
    }
    assert(absolute(whole) == absolute(base));
    assert(parts(whole) =~= parts(base) + parts_of_pieces(pieces(rel, '/'), false));
}

/// Joining a name appends it as one component.
pub proof fn lemma_parts_joined_name(base: Seq<char>, name: Seq<char>)
    requires
        is_name(name),
    ensures
        parts(joined(base, name)) == parts(base).push(Part::Name(name)),
{
    lemma_pieces_single(name, '/');
    reveal_with_fuel(parts_of_pieces, 3);
    assert(parts_of_pieces(seq![name], false) =~= seq![Part::Name(name)]);
    assert(parts_of_pieces(seq![name], true) =~= seq![Part::Name(name)]);
    if base.len() == 0 {
        lemma_pieces_single(base, '/');
        assert(parts(base) =~= Seq::<Part>::empty());
    } else {
        lemma_parts_joined(base, name);
    }
    assert(parts(joined(base, name)) =~= parts(base).push(Part::Name(name)));
}

proof fn lemma_parts_of_pieces_well_formed(segs: Seq<Seq<char>>, first: bool)
    requires
        forall|i: int, j: int|
            0 <= i < segs.len() && 0 <= j < segs[i].len() ==> #[trigger] segs[i][j] != '/',
    ensures
        well_formed(parts_of_pieces(segs, first)),
        forall|i: int|
            0 <= i < parts_of_pieces(segs, first).len() ==> {
                let p = #[trigger] parts_of_pieces(segs, first)[i];
                p !is Root && (p is Current ==> i == 0 && first && segs[0] == seq!['.'])
            },
    decreases segs.len(),
{
    if segs.len() > 0 {
        lemma_parts_of_pieces_well_formed(segs.drop_last(), first);
        let seg = segs.last();
        assert forall|j: int| 0 <= j < seg.len() implies seg[j] != '/' by {
            assert(segs[segs.len() - 1][j] != '/');
        }
        if seg.len() == 0 {
            assert(seg =~= Seq::<char>::empty());
        }
        if segs.len() == 1 {
            assert(parts_of_pieces(segs.drop_last(), first) =~= Seq::<Part>::empty());
        } else {
            assert(segs.drop_last()[0] == segs[0]);
        }
    }
}

/// The components of any text are well formed.
pub proof fn lemma_parts_well_formed(s: Seq<char>)
    ensures
        well_formed(parts(s)),
{
    let segs = pieces(s, '/');
    lemma_pieces_clean(s, '/');
    lemma_pieces_nonempty(s, '/');
    lemma_parts_of_pieces_well_formed(segs, true);
    if absolute(s) {
        let rest = s.drop_first();
        assert(s =~= Seq::<char>::empty().push('/') + rest);
        lemma_pieces_join(Seq::empty(), rest, '/');
        assert(segs[0] =~= Seq::<char>::empty());
        let body = parts_of_pieces(segs, true);
        assert forall|i: int| 0 <= i < parts(s).len() implies match #[trigger] parts(s)[i] {
            Part::Root => i == 0,
            Part::Current => i == 0,
            Part::Parent => true,
            Part::Name(name) => is_name(name),
        } by {
            if i > 0 {
                assert(parts(s)[i] == body[i - 1]);
            }
        }
    }
}

/// A list of components is read back from its text.
pub proof fn lemma_parts_path_text(ps: Seq<Part>)
    requires
        well_formed(ps),
    ensures
        parts(path_text(ps)) == ps,
        path_text(ps).len() == 0 <==> ps.len() == 0,
    decreases ps.len(),
{
    reveal_with_fuel(parts_of_pieces, 3);
    if ps.len() == 0 {
        lemma_pieces_single(path_text(ps), '/');
        assert(parts(path_text(ps)) =~= ps);
    } else {
        let front = ps.drop_last();
        assert forall|i: int| 0 <= i < front.len() implies match #[trigger] front[i] {
            Part::Root => i == 0,
            Part::Current => i == 0,
            Part::Parent => true,
            Part::Name(name) => is_name(name),
        } by {
            assert(front[i] == ps[i]);
        }
        lemma_parts_path_text(front);
        let base = path_text(front);
        let last = ps.last();
        assert(ps[ps.len() - 1] == last);
        assert(ps =~= front.push(last));
        match last {
            Part::Root => {
                assert(front =~= Seq::<Part>::empty());
                let slash = seq!['/'];
                assert(slash =~= Seq::<char>::empty().push('/') + Seq::<char>::empty());
                lemma_pieces_join(Seq::empty(), Seq::empty(), '/');
                assert(pieces(slash, '/') =~= seq![Seq::<char>::empty(), Seq::<char>::empty()]);
                assert(parts(slash) =~= ps);
            },
            Part::Name(name) => {
                assert(is_name(name));
                lemma_parts_joined_name(base, name);
            },
            Part::Current => {
                assert(front =~= Seq::<Part>::empty());
                let dot = seq!['.'];
                lemma_pieces_single(dot, '/');
                assert(parts(dot) =~= ps);
            },
            Part::Parent => {
                let dots = seq!['.', '.'];
                lemma_pieces_single(dots, '/');
                if base.len() == 0 {
                    assert(parts(dots) =~= ps);
                } else {
                    lemma_parts_joined(base, dots);
                    assert(parts(joined(base, dots)) =~= ps);
                }
            },
        }
    }
}

/// One component of a path.
#[derive(Debug)]
pub enum Component {
    /// The leading `/`.
    RootDir,
    /// A leading `.`.
    CurDir,
    /// `..`
    ParentDir,
    /// A name.
    Normal(String),
}

impl View for Component {
    type V = Part;

    open spec fn view(&self) -> Part {
        match self {
            Component::RootDir => Part::Root,
            Component::CurDir => Part::Current,
            Component::ParentDir => Part::Parent,
            Component::Normal(name) => Part::Name(name@),
        }
    }
}

/// What a list of components stands for.
pub open spec fn parts_view(cs: Seq<Component>) -> Seq<Part> {
    cs.map_values(|c: Component| c@)
}

impl Clone for Component {
    fn clone(&self) -> (r: Self)
        ensures
            r == *self,
    {
        match self {
            Component::RootDir => Component::RootDir,
            Component::CurDir => Component::CurDir,
            Component::ParentDir => Component::ParentDir,
            Component::Normal(name) => Component::Normal(name.clone()),
        }
    }
}

impl Component {
    /// Whether two components are the same.
    pub fn same(&self, other: &Component) -> (r: bool)
        ensures
            r == (self@ == other@),
    {
        match (self, other) {
            (Component::RootDir, Component::RootDir) => true,
            (Component::CurDir, Component::CurDir) => true,
            (Component::ParentDir, Component::ParentDir) => true,
            (Component::Normal(a), Component::Normal(b)) => *a == *b,
            _ => false,
        }
    }

    /// The text of this component.
    pub fn text(&self) -> (r: String)
        ensures
            r@ == part_text(self@),
    {
        proof {
            reveal_strlit("/");
            reveal_strlit(".");
            reveal_strlit("..");
        }
        match self {
            Component::RootDir => {
                assert("/"@ =~= seq!['/']);
                "/".to_owned()
            },
            Component::CurDir => {
                assert("."@ =~= seq!['.']);
                ".".to_owned()
            },
            Component::ParentDir => {
                assert(".."@ =~= seq!['.', '.']);
                "..".to_owned()
            },
            Component::Normal(name) => name.clone(),
        }
    }
}

/// Whether `a` is a prefix of `b`.
pub fn is_prefix(a: &Vec<Component>, b: &Vec<Component>) -> (r: bool)
    ensures
        r == parts_view(a@).is_prefix_of(parts_view(b@)),
{
    if a.len() > b.len() {
        return false;
    }
    let mut i: usize = 0;
    while i < a.len()
        invariant
            i <= a@.len() <= b@.len(),
            forall|j: int| 0 <= j < i ==> parts_view(a@)[j] == parts_view(b@)[j],
        decreases a@.len() - i,
    {
        if !a[i].same(&b[i]) {
            assert(parts_view(a@)[i as int] != parts_view(b@).subrange(0, a@.len() as int)[i as int]);
            return false;
        }
        i += 1;
    }
    assert(parts_view(a@) =~= parts_view(b@).subrange(0, a@.len() as int));
    true
}

/// Whether two lists of components are the same.
pub fn same_components(a: &Vec<Component>, b: &Vec<Component>) -> (r: bool)
    ensures
        r == (parts_view(a@) == parts_view(b@)),
{
    assert(parts_view(a@).len() == a@.len() && parts_view(b@).len() == b@.len());
    let r = a.len() == b.len() && is_prefix(a, b);
    assert(a@.len() == b@.len() ==> parts_view(b@).subrange(0, a@.len() as int) =~= parts_view(b@));
    r
}

/// A path on a Unix filesystem.
#[derive(Debug)]
pub struct FsPath {
    pub text: String,
}

impl View for FsPath {
    type V = Seq<char>;

    open spec fn view(&self) -> Seq<char> {
        self.text@
    }
}

impl Clone for FsPath {
    fn clone(&self) -> (r: Self)
        ensures
            r == *self,
    {
        FsPath { text: self.text.clone() }
    }
}

impl PartialEq for FsPath {
    fn eq(&self, other: &Self) -> (r: bool) {
        self.same(other)
    }
}

impl vstd::std_specs::cmp::PartialEqSpecImpl for FsPath {
    open spec fn obeys_eq_spec() -> bool {
        true
    }

    /// Two paths are equal when their components are.
    open spec fn eq_spec(&self, other: &Self) -> bool {
        same_path(self@, other@)
    }
}

impl FsPath {
    /// The path written `text`.
    pub fn new(text: &str) -> (r: FsPath)
        ensures
            r@ == text@,
    {
        FsPath { text: text.to_owned() }
    }

    /// The text of this path.
    pub fn as_str(&self) -> (r: &str)
        ensures
            r@ == self@,
    {
        self.text.as_str()
    }

    /// Whether the text is empty.
    pub fn is_empty(&self) -> (r: bool)
        ensures
            r == (self@.len() == 0),
    {
        text::chars_of(self.text.as_str()).len() == 0
    }

    /// Whether the path starts at the root.
    pub fn is_absolute(&self) -> (r: bool)
        ensures
            r == absolute(self@),
    {
        starts_at_root(self.text.as_str())
    }

    /// The components of this path.
    pub fn components(&self) -> (r: Vec<Component>)
        ensures
            parts_view(r@) == parts(self@),
    {
        let segs = text::split(self.text.as_str(), '/');
        let ghost all = segs@.map_values(|p: String| p@);
        proof {
            lemma_pieces_nonempty(self@, '/');
        }
        let mut out: Vec<Component> = Vec::new();
        if self.is_absolute() {
            out.push(Component::RootDir);
        }
        let ghost lead = parts_view(out@);
        let mut i: usize = 0;
        assert(parts_of_pieces(all.take(0), true) =~= Seq::<Part>::empty());
        while i < segs.len()
            invariant
                all == segs@.map_values(|p: String| p@),
                i <= segs@.len(),
                parts_view(out@) == lead + parts_of_pieces(all.take(i as int), true),
            decreases segs@.len() - i,
        {
            let ghost before = all.take(i as int);
            let ghost after = all.take(i + 1);
            let ghost old_out = parts_view(out@);
            assert(after.drop_last() =~= before);
            assert(after.last() == segs@[i as int]@);
            let seg: &String = &segs[i];
            proof {
                reveal_strlit(".");
                reveal_strlit("..");
                assert("."@ =~= seq!['.']);
                assert(".."@ =~= seq!['.', '.']);
            }
            if text::same_text(seg.as_str(), "..") {
                out.push(Component::ParentDir);
                assert(parts_view(out@) =~= old_out.push(Part::Parent));
            } else if text::same_text(seg.as_str(), ".") {
                if i == 0 {
                    out.push(Component::CurDir);
                    assert(parts_view(out@) =~= old_out.push(Part::Current));
                }
            } else if !text::same_text(seg.as_str(), "") {
                proof {
                    reveal_strlit("");
                    assert(""@ =~= Seq::<char>::empty());
                }
                out.push(Component::Normal(seg.clone()));
                assert(parts_view(out@) =~= old_out.push(Part::Name(seg@)));
            } else {
                proof {
                    reveal_strlit("");
                    assert(""@ =~= Seq::<char>::empty());
                }
            }
            assert(parts_view(out@) =~= lead + parts_of_pieces(after, true));
            i += 1;
        }
        assert(all.take(i as int) =~= all);
        assert(parts_view(out@) =~= parts(self@));
        out
    }

    /// Whether two texts name the same path.
    pub fn same(&self, other: &FsPath) -> (r: bool)
        ensures
            r == same_path(self@, other@),
    {
        same_components(&self.components(), &other.components())
    }

    /// Whether this path is `base` or lies beneath it.
    pub fn starts_with(&self, base: &FsPath) -> (r: bool)
        ensures
            r == under(self@, base@),
    {
        is_prefix(&base.components(), &self.components())
    }

    /// This path as it is shown below `root`.
    pub fn below(&self, root: &FsPath) -> (r: FsPath)
        ensures
            r@ == shown_below(self@, root@),
    {
        let own = self.components();
        let base = root.components();
        if !is_prefix(&base, &own) {
            return self.clone();
        }
        let ghost all = parts_view(own@);
        let n: usize = base.len();
        assert(parts_view(base@).len() == base@.len() && all.len() == own@.len());
        let mut rest: Vec<Component> = Vec::new();
        let mut i: usize = n;
        while i < own.len()
            invariant
                all == parts_view(own@),
                all.len() == own@.len(),
                n <= i <= own@.len(),
                parts_view(rest@) =~= all.subrange(n as int, i as int),
            decreases own@.len() - i,
        {
            let ghost before = parts_view(rest@);
            rest.push(own[i].clone());
            assert(parts_view(rest@) =~= before.push(all[i as int]));
            i += 1;
        }
        assert(parts_view(rest@) =~= all.skip(n as int));
        from_components(&rest)
    }

    /// This path followed by `rel`; an absolute `rel` stands alone.
    pub fn join(&self, rel: &str) -> (r: FsPath)
        ensures
            r@ == joined(self@, rel@),
    {
        let chars = text::chars_of(self.text.as_str());
        if starts_at_root(rel) || chars.len() == 0 {
            return FsPath::new(rel);
        }
        let mut out: String = self.text.clone();
        if chars[chars.len() - 1] != '/' {
            out.push('/');
        }
        out.append(rel);
        FsPath { text: out }
    }

    /// The last component, if it is a name.
    pub fn file_name(&self) -> (r: Option<String>)
        ensures
            r is Some <==> last_name(self@) is Some,
            r is Some ==> r->0@ == last_name(self@)->0,
    {
        let cs = self.components();
        let n: usize = cs.len();
        if n == 0 {
            return None;
        }
        assert(parts(self@).last() == cs@[n - 1]@);
        match &cs[n - 1] {
            Component::Normal(name) => Some(name.clone()),
            _ => None,
        }
    }

    /// The path without its last component: none for the root and for the
    /// empty path.
    pub fn parent(&self) -> (r: Option<FsPath>)
        ensures
            r is Some <==> has_parent(self@),
            r is Some ==> r->0@ == parent_text(self@),
            r is Some ==> parts(r->0@) == parts(self@).drop_last(),
    {
        let mut cs = self.components();
        let n: usize = cs.len();
        if n == 0 {
            return None;
        }
        assert(parts(self@).last() == cs@[n - 1]@);
        match &cs[n - 1] {
            Component::RootDir => None,
            _ => {
                let ghost whole = parts_view(cs@);
                cs.truncate(n - 1);
                proof {
                    assert(parts_view(cs@) =~= whole.drop_last());
                    lemma_parts_well_formed(self@);
                    lemma_well_formed_front(whole);
                    lemma_parts_path_text(whole.drop_last());
                }
                Some(from_components(&cs))
            },
        }
    }

    /// The extension of the file name.
    pub fn extension(&self) -> (r: Option<String>)
        ensures
            r is Some <==> last_name(self@) is Some && extension_of(last_name(self@)->0) is Some,
            r is Some ==> r->0@ == extension_of(last_name(self@)->0)->0,
    {
        match self.file_name() {
            None => None,
            Some(name) => {
                let chars = text::chars_of(name.as_str());
                match find_last(&chars, '.') {
                    Some(dot) => if dot > 0 {
                        let n: usize = chars.len();
                        let r = text::text_of(chars.as_slice(), dot + 1, n);
                        assert(chars@.subrange(dot + 1, chars@.len() as int) =~= chars@.skip(dot + 1));
                        Some(r)
                    } else {
                        None
                    },
                    None => None,
                }
            },
        }
    }

    /// The file name without its extension.
    pub fn file_stem(&self) -> (r: Option<String>)
        ensures
            r is Some <==> last_name(self@) is Some,
            r is Some ==> r->0@ == stem_of(last_name(self@)->0),
    {
        match self.file_name() {
            None => None,
            Some(name) => {
                let chars = text::chars_of(name.as_str());
                match find_last(&chars, '.') {
                    Some(dot) => if dot > 0 {
                        let r = text::text_of(chars.as_slice(), 0, dot);
                        assert(chars@.subrange(0, dot as int) =~= chars@.take(dot as int));
                        Some(r)
                    } else {
                        Some(name)
                    },
                    None => Some(name),
                }
            },
        }
    }
}

/// Whether the path written `s` starts at the root.
pub fn starts_at_root(s: &str) -> (r: bool)
    ensures
        r == absolute(s@),
{
    let chars = text::chars_of(s);
    chars.len() > 0 && chars[0] == '/'
}

/// The position of the last `c`.
pub fn find_last(chars: &Vec<char>, c: char) -> (r: Option<usize>)
    ensures
        match r {
            Some(i) => i == last_position(chars@, c) && i < chars@.len(),
            None => last_position(chars@, c) == -1,
        },
{
    let mut i: usize = chars.len();
    assert(chars@.take(i as int) =~= chars@);
    while i > 0
        invariant
            i <= chars@.len(),
            last_position(chars@, c) == last_position(chars@.take(i as int), c),
        decreases i,
    {
        assert(chars@.take(i as int).drop_last() =~= chars@.take(i - 1));
        if chars[i - 1] == c {
            return Some(i - 1);
        }
        i -= 1;
    }
    None
}

/// An entry of a directory has the directory as its parent, and its name as
/// its last component.
pub proof fn lemma_parent_of_child(dir: Seq<char>, name: Seq<char>)
    requires
        is_name(name),
    ensures
        has_parent(joined(dir, name)),
        same_path(parent_text(joined(dir, name)), dir),
        last_name(joined(dir, name)) == Some(name),
{
    lemma_parts_joined_name(dir, name);
    lemma_parts_well_formed(dir);
    assert(parts(joined(dir, name)).drop_last() =~= parts(dir));
    lemma_parts_path_text(parts(dir));
}

/// Every path lies at itself.
pub proof fn lemma_under_self(p: Seq<char>)
    ensures
        under(p, p),
{
    assert(parts(p) =~= parts(p).subrange(0, parts(p).len() as int));
}

/// What lies beneath a path lies beneath everything above it.
pub proof fn lemma_under_trans(a: Seq<char>, b: Seq<char>, c: Seq<char>)
    requires
        under(a, b),
        under(b, c),
    ensures
        under(a, c),
{
    assert(parts(c) =~= parts(b).subrange(0, parts(c).len() as int));
    assert(parts(b) =~= parts(a).subrange(0, parts(b).len() as int));
    assert(parts(c) =~= parts(a).subrange(0, parts(c).len() as int));
}

/// The front of a well-formed list is well formed.
pub proof fn lemma_well_formed_front(ps: Seq<Part>)
    requires
        well_formed(ps),
        ps.len() > 0,
    ensures
        well_formed(ps.drop_last()),
{
    let front = ps.drop_last();
    assert forall|i: int| 0 <= i < front.len() implies match #[trigger] front[i] {
        Part::Root => i == 0,
        Part::Current => i == 0,
        Part::Parent => true,
        Part::Name(name) => is_name(name),
    } by {
        assert(front[i] == ps[i]);
    }
}

/// The path with the given components.
pub fn from_components(cs: &Vec<Component>) -> (r: FsPath)
    ensures
        r@ == path_text(parts_view(cs@)),
{
    let mut out = FsPath { text: String::new() };
    let mut i: usize = 0;
    while i < cs.len()
        invariant
            i <= cs@.len(),
            out@ == path_text(parts_view(cs@).take(i as int)),
        decreases cs@.len() - i,
    {
        let piece = cs[i].text();
        out = out.join(piece.as_str());
        assert(parts_view(cs@).take(i + 1).drop_last() =~= parts_view(cs@).take(i as int));
        i += 1;
    }
    assert(parts_view(cs@).take(i as int) =~= parts_view(cs@));
    out
}

/// The components of `path` with `.` left out and `..` resolved.
pub fn normal_components(path: &FsPath) -> (r: Vec<Component>)
    ensures
        parts_view(r@) == normal_parts(parts(path@)),
{
    let cs = path.components();
    let ghost all = parts_view(cs@);
    let mut out: Vec<Component> = Vec::new();
    let mut i: usize = 0;
    while i < cs.len()
        invariant
            all == parts_view(cs@),
            i <= cs@.len(),
            parts_view(out@) == normal_parts(all.take(i as int)),
        decreases cs@.len() - i,
    {
        assert(all.take(i + 1).drop_last() =~= all.take(i as int));
        let ghost old_out = parts_view(out@);
        match &cs[i] {
            Component::ParentDir => {
                let n: usize = out.len();
                if n > 0 {
                    assert(old_out.last() == out@[n - 1]@);
                    if let Component::Normal(_) = &out[n - 1] {
                        out.truncate(n - 1);
                        assert(parts_view(out@) =~= old_out.drop_last());
                    }
                }
            },
            Component::CurDir => {},
            Component::RootDir => {
                out.push(Component::RootDir);
                assert(parts_view(out@) =~= old_out.push(Part::Root));
            },
            Component::Normal(name) => {
                out.push(Component::Normal(name.clone()));
                assert(parts_view(out@) =~= old_out.push(Part::Name(name@)));
            },
        }
        i += 1;
    }
    assert(all.take(i as int) =~= all);
    out
}

/// The home directory: what the password database says, where it says
/// something, else the environment's answer.
pub fn real_home(passwd_dir: Option<FsPath>, environment: Option<FsPath>) -> (r: Option<FsPath>)
    ensures
        r == if passwd_dir is Some && passwd_dir->0@.len() > 0 {
            passwd_dir
        } else {
            environment
        },
{
    if let Some(dir) = &passwd_dir {
        if !dir.is_empty() {
            return passwd_dir;
        }
    }
    environment
}

/// The effective home directory: a non-empty override, else the real one.
pub fn home_dir(overridden: Option<FsPath>, actual: Option<FsPath>) -> (r: Option<FsPath>)
    ensures
        r == if overridden is Some && overridden->0@.len() > 0 {
            overridden
        } else {
            actual
        },
{
    if let Some(dir) = &overridden {
        if !dir.is_empty() {
            return overridden;
        }
    }
    actual
}

/// The texts of a list of paths.
pub open spec fn texts(ps: Seq<FsPath>) -> Seq<Seq<char>> {
    ps.map_values(|p: FsPath| p@)
}

/// A text without the separators at its front.
pub open spec fn unrooted(s: Seq<char>) -> Seq<char>
    decreases s.len(),
{
    if absolute(s) {
        unrooted(s.skip(1))
    } else {
        s
    }
}

/// What a leading `~` in `path` stands for, given the home directory. What
/// follows it is always beneath that directory.
pub open spec fn tilde_expanded(path: Seq<char>, home: Option<Seq<char>>) -> Seq<char> {
    if home is None {
        path
    } else if path == seq!['~'] {
        home->0
    } else if text::begins_with(path, seq!['~', '/']) {
        joined(home->0, unrooted(path.skip(2)))
    } else {
        path
    }
}

/// The view of an optional path.
pub open spec fn opt_view(p: Option<&FsPath>) -> Option<Seq<char>> {
    match p {
        Some(path) => Some(path@),
        None => None,
    }
}

/// Expands a leading `~` or `~/` to the home directory; any other path, and
/// any path when no home directory is known, is returned as it stands.
pub fn expand_tilde(path: &str, home: Option<&FsPath>) -> (r: FsPath)
    ensures
        r@ == tilde_expanded(path@, opt_view(home)),
        home is Some && (path@ == seq!['~'] || text::begins_with(path@, seq!['~', '/'])) ==> under(r@, home->0@),
{
    proof {
        if home is Some && (path@ == seq!['~'] || text::begins_with(path@, seq!['~', '/'])) {
            a_tilde_stays_at_home(path@, home->0@);
        }
        reveal_strlit("~");
        reveal_strlit("~/");
        assert("~"@ =~= seq!['~']);
        assert("~/"@ =~= seq!['~', '/']);
    }
    if let Some(home) = home {
        if text::same_text(path, "~") {
            return home.clone();
        }
        if let Some(rest) = text::after_prefix(path, "~/") {
            let bare = without_root(rest.as_str());
            return home.join(bare.as_str());
        }
    }
    FsPath::new(path)
}

/// A text without the separators at its front.
fn without_root(s: &str) -> (r: String)
    ensures
        r@ == unrooted(s@),
{
    let chars = text::chars_of(s);
    let n: usize = chars.len();
    let mut i: usize = 0;
    assert(chars@.skip(0) =~= chars@);
    while i < n && chars[i] == '/'
        invariant
            n == chars@.len(),
            i <= n,
            unrooted(chars@) == unrooted(chars@.skip(i as int)),
        decreases n - i,
    {
        assert(chars@.skip(i as int).skip(1) =~= chars@.skip(i + 1));
        i += 1;
    }
    let r = text::text_of(chars.as_slice(), i, n);
    assert(r@ =~= chars@.skip(i as int));
    r
}

proof fn lemma_unrooted(s: Seq<char>)
    ensures
        !absolute(unrooted(s)),
    decreases s.len(),
{
    if absolute(s) {
        lemma_unrooted(s.skip(1));
    }
}

/// What a leading `~` stands for lies at the home directory or beneath it,
/// component by component, however many separators follow it.
pub proof fn a_tilde_stays_at_home(path: Seq<char>, home: Seq<char>)
    requires
        path == seq!['~'] || text::begins_with(path, seq!['~', '/']),
    ensures
        under(tilde_expanded(path, Some(home)), home),
{
    if path == seq!['~'] {
    } else {
        let rest = unrooted(path.skip(2));
        lemma_unrooted(path.skip(2));
        if home.len() == 0 {
            lemma_pieces_single(home, '/');
            reveal_with_fuel(parts_of_pieces, 3);
            assert(parts(home) =~= Seq::<Part>::empty());
        } else {
            lemma_parts_joined(home, rest);
        }
    }
}

/// The place a rule's path names.
pub fn resolve(path: &str, home: Option<&FsPath>) -> (r: FsPath)
    ensures
        r@ == tilde_expanded(path@, opt_view(home)),
{
    expand_tilde(path, home)
}

proof fn lemma_last_position(s: Seq<char>, c: char, tail: Seq<char>)
    requires
        forall|i: int| 0 <= i < tail.len() ==> tail[i] != c,
    ensures
        last_position(s.push(c) + tail, c) == s.len(),
    decreases tail.len(),
{
    let whole = s.push(c) + tail;
    if tail.len() == 0 {
        assert(whole =~= s.push(c));
    } else {
        assert(whole.drop_last() =~= s.push(c) + tail.drop_last());
        assert(whole.last() == tail[tail.len() - 1]);
        lemma_last_position(s, c, tail.drop_last());
    }
}

proof fn lemma_position_holds(s: Seq<char>, c: char)
    ensures
        -1 <= last_position(s, c) < s.len(),
        last_position(s, c) >= 0 ==> s[last_position(s, c)] == c,
        forall|i: int| last_position(s, c) < i < s.len() ==> s[i] != c,
    decreases s.len(),
{
    if s.len() > 0 && s.last() != c {
        let front = s.drop_last();
        lemma_position_holds(front, c);
        assert forall|i: int| last_position(s, c) < i < s.len() implies s[i] != c by {
            if i < front.len() {
                assert(front[i] == s[i]);
            }
        }
    }
}

/// What stands behind the last dot of a name is its extension, and what
/// stands before it is the stem.
pub proof fn the_extension_is_behind_the_last_dot(stem: Seq<char>, extension: Seq<char>)
    requires
        forall|i: int| 0 <= i < extension.len() ==> extension[i] != '.',
    ensures
        stem.len() > 0 ==> extension_of(stem.push('.') + extension) == Some(extension),
        stem.len() > 0 ==> stem_of(stem.push('.') + extension) == stem,
        extension_of(extension) is None,
        stem_of(extension) == extension,
        extension_of(seq!['.'] + extension) is None,
{
    lemma_last_position(stem, '.', extension);
    let whole = stem.push('.') + extension;
    assert(whole.skip((stem.len() + 1) as int) =~= extension);
    assert(whole.take(stem.len() as int) =~= stem);
    lemma_position_holds(extension, '.');
    lemma_last_position(Seq::empty(), '.', extension);
    assert(Seq::<char>::empty().push('.') + extension =~= seq!['.'] + extension);
}

/// A name with an extension is its stem, a dot and the extension.
pub proof fn an_extension_makes_up_the_name(name: Seq<char>)
    ensures
        extension_of(name) is Some ==> name == stem_of(name).push('.') + extension_of(name)->0 && stem_of(name).len() > 0,
        extension_of(name) is None ==> stem_of(name) == name,
{
    lemma_position_holds(name, '.');
    let dot = last_position(name, '.');
    if dot > 0 {
        assert(name =~= name.take(dot).push('.') + name.skip(dot + 1));
    }
}

/// A path lies under a place exactly where its components begin with those of
/// the place; so it lies under itself, under nothing longer, and what is
/// joined to a place lies under it.
pub proof fn what_lies_under_a_place(path: Seq<char>, root: Seq<char>, name: Seq<char>)
    requires
        is_name(name),
    ensures
        under(path, path),
        under(joined(path, name), path),
        !under(path, joined(path, name)),
        under(joined(path, name), root) <==> under(path, root) || same_path(root, joined(path, name)),
        under(path, root) ==> parts(root).len() <= parts(path).len(),
        last_name(joined(path, name)) == Some(name),
{
    lemma_under_self(path);
    lemma_parts_joined_name(path, name);
    let (short, long, r) = (parts(path), parts(joined(path, name)), parts(root));
    assert(long.subrange(0, short.len() as int) =~= short);
    if under(joined(path, name), root) {
        if r.len() == long.len() {
            assert(r =~= long);
        } else {
            assert(r =~= short.subrange(0, r.len() as int));
        }
    }
    if under(path, root) {
        assert(r =~= long.subrange(0, r.len() as int));
    }
    if r == long {
        assert(r =~= long.subrange(0, r.len() as int));
    }
}

/// A sibling whose name only begins like a place does not lie under it.
pub proof fn a_longer_name_is_another_place(dir: Seq<char>, name: Seq<char>, more: Seq<char>)
    requires
        is_name(name),
        is_name(name + more),
        more.len() > 0,
    ensures
        !under(joined(dir, name + more), joined(dir, name)),
        !same_path(joined(dir, name + more), joined(dir, name)),
{
    lemma_parts_joined_name(dir, name);
    lemma_parts_joined_name(dir, name + more);
    let (a, b) = (parts(joined(dir, name)), parts(joined(dir, name + more)));
    assert(a.last() == Part::Name(name) && b.last() == Part::Name(name + more));
    assert((name + more).len() != name.len());
    if under(joined(dir, name + more), joined(dir, name)) {
        assert(a =~= b.subrange(0, a.len() as int));
        assert(a.last() == b.last());
    }
}

/// Text that names no home is left alone, with a home or without.
pub proof fn only_a_tilde_is_expanded(path: Seq<char>, home: Option<Seq<char>>, rest: Seq<char>)
    ensures
        path.len() == 0 || path[0] != '~' ==> tilde_expanded(path, home) == path,
        path.len() > 1 && path[1] != '/' ==> tilde_expanded(path, home) == path,
        home is None ==> tilde_expanded(path, home) == path,
        home is Some ==> tilde_expanded(seq!['~'], home) == home->0,
        home is Some && (rest.len() == 0 || rest[0] != '/') ==> tilde_expanded(seq!['~', '/'] + rest, home) == joined(
            home->0,
            rest,
        ),
{
    let whole = seq!['~', '/'] + rest;
    assert(whole.take(2) =~= seq!['~', '/']);
    assert(whole.skip(2) =~= rest);
    assert(whole.len() >= 2);
    if path.len() >= 2 {
        assert(path.take(2)[0] == path[0] && path.take(2)[1] == path[1]);
    }
    if path.len() > 0 {
        assert(path == seq!['~'] ==> path[0] == '~' && path.len() == 1);
    }
}

/// How a path is cut: at slashes, however many stand together. A dot stands
/// for the place it is in, two dots for the one above, and what begins with a
/// slash begins at the root.
pub proof fn how_a_path_is_cut(base: Seq<char>, name: Seq<char>)
    requires
        is_name(name),
    ensures
        parts(Seq::empty()).len() == 0,
        parts(seq!['/']) == seq![Part::Root],
        parts(seq!['.']) == seq![Part::Current],
        parts(seq!['.', '.']) == seq![Part::Parent],
        parts(name) == seq![Part::Name(name)],
        parts(seq!['/'] + name) == seq![Part::Root, Part::Name(name)],
        base.len() > 0 ==> same_path(base.push('/'), base) || base == seq!['/'],
        base.len() > 0 ==> same_path(joined(base, seq!['.']), base),
        base.len() > 0 ==> parts(joined(base, seq!['.', '.'])) == parts(base).push(Part::Parent),
        joined(base, seq!['/'] + name) == seq!['/'] + name,
        joined(Seq::empty(), name) == name,
{
    let none = Seq::<char>::empty();
    let dot = seq!['.'];
    let dots = seq!['.', '.'];
    let slash = seq!['/'];
    text::lemma_pieces_single(none, '/');
    text::lemma_pieces_single(dot, '/');
    text::lemma_pieces_single(dots, '/');
    text::lemma_pieces_single(name, '/');
    reveal_with_fuel(parts_of_pieces, 3);
    assert(seq![none].drop_last() =~= Seq::<Seq<char>>::empty());
    assert(seq![dot].drop_last() =~= Seq::<Seq<char>>::empty());
    assert(seq![dots].drop_last() =~= Seq::<Seq<char>>::empty());
    assert(seq![name].drop_last() =~= Seq::<Seq<char>>::empty());
    assert(parts(none) =~= Seq::<Part>::empty());
    assert(dot[0] == '.' && dots[0] == '.');
    assert(parts(dot) =~= seq![Part::Current]);
    assert(parts(dots) =~= seq![Part::Parent]);
    assert(name[0] != '/');
    assert(parts(name) =~= seq![Part::Name(name)]);
    text::lemma_pieces_join(none, none, '/');
    assert(none.push('/') + none =~= slash);
    assert(pieces(slash, '/') =~= seq![none, none]);
    assert(seq![none, none].drop_last() =~= seq![none]);
    assert(parts_of_pieces(seq![none, none], true) =~= Seq::<Part>::empty());
    assert(parts(slash) =~= seq![Part::Root]);
    lemma_parts_joined_name(slash, name);
    assert(joined(slash, name) == slash + name);
    assert(parts(slash + name) =~= seq![Part::Root, Part::Name(name)]);
    assert((slash + name)[0] == '/');
    if base.len() > 0 {
        lemma_parts_joined(base, none);
        lemma_parts_joined(base, dot);
        lemma_parts_joined(base, dots);
        assert(parts_of_pieces(seq![none], false) =~= Seq::<Part>::empty());
        assert(parts_of_pieces(seq![dot], false) =~= Seq::<Part>::empty());
        assert(parts_of_pieces(seq![dots], false) =~= seq![Part::Parent]);
        assert(parts(base) + Seq::<Part>::empty() =~= parts(base));
        assert(parts(base) + seq![Part::Parent] =~= parts(base).push(Part::Parent));
        if base.last() != '/' {
            assert(joined(base, none) =~= base.push('/'));
        } else {
            text::lemma_pieces_join(base, none, '/');
            assert(base.push('/') + none =~= base.push('/'));
            lemma_parts_of_pieces_join(pieces(base, '/'), pieces(none, '/'));
        }
    }
}

/// What lies under a place is shown from there; anything else is shown whole.
pub proof fn what_is_shown_below(path: Seq<char>, root: Seq<char>, name: Seq<char>)
    requires
        is_name(name),
    ensures
        shown_below(joined(root, name), root) == name,
        !under(path, root) ==> shown_below(path, root) == path,
        shown_below(root, root).len() == 0,
{
    lemma_parts_joined_name(root, name);
    let ps = parts(joined(root, name));
    assert(ps.skip(parts(root).len() as int) =~= seq![Part::Name(name)]);
    let one = seq![Part::Name(name)];
    assert(one.drop_last() =~= Seq::<Part>::empty());
    reveal_with_fuel(path_text, 2);
    assert(path_text(one) == name);
    assert(under(joined(root, name), root));
    assert(parts(root).skip(parts(root).len() as int) =~= Seq::<Part>::empty());
}

} // verus!
