//! The safety layer: the guardrails that stand between a scan result and the
//! filesystem. Nothing is removed without first passing through
//! [`SafetyGuard::validate`].
//!
//! - Anything under a system-critical root is denied.
//! - Every path is judged as the filesystem resolves it, so a symlink cannot
//!   be used to escape an approved root.
//! - A path must live inside one of the approved roots to be removable.
//!
//! Resolving a path is the filesystem's work: the functions here take the
//! place it resolves to, `None` standing for a path that does not exist.

use vstd::prelude::*;

use crate::paths;
use crate::paths::{
    from_components, is_name, is_prefix, joined, lemma_parts_path_text, lemma_parts_well_formed,
    lemma_well_formed_front, normal_components, normal_parts, opt_view, parts, parts_view, path_text, same_path, texts,
    well_formed, FsPath, Part,
};

verus! {

/// Why a path was refused.
#[derive(Debug)]
pub enum RefusalReason {
    /// Path is (or is inside) a hard-blocked system-critical location.
    DeniedRoot(FsPath),
    /// Path resolves outside every approved root.
    OutsideApprovedRoots,
    /// Path is the user's home directory itself.
    HomeRoot,
    /// Path is empty.
    Malformed,
}

/// What a refusal says to the user.
pub open spec fn refusal_text(r: Refusal) -> Seq<char> {
    match r {
        Refusal::Denied(p) => "path is within a protected system location: "@ + p,
        Refusal::Outside => "path is outside the approved cleaning roots"@,
        Refusal::Home => "refusing to operate on the home directory itself"@,
        Refusal::Malformed => "path is empty or malformed"@,
    }
}

impl RefusalReason {
    /// The reason in words.
    pub fn message(&self) -> (r: String)
        ensures
            r@ == refusal_text(self@),
    {
        match self {
            RefusalReason::DeniedRoot(p) => {
                let mut s = "path is within a protected system location: ".to_owned();
                s.append(p.as_str());
                s
            },
            RefusalReason::OutsideApprovedRoots => "path is outside the approved cleaning roots".to_owned(),
            RefusalReason::HomeRoot => "refusing to operate on the home directory itself".to_owned(),
            RefusalReason::Malformed => "path is empty or malformed".to_owned(),
        }
    }
}

/// What a path comes to once `.` and `..` are resolved.
pub open spec fn normalized(s: Seq<char>) -> Seq<Part> {
    normal_parts(parts(s))
}

/// `path` equals `root` or is nested beneath it, once both are normalized.
pub open spec fn within(path: Seq<char>, root: Seq<char>) -> bool {
    normalized(root).is_prefix_of(normalized(path))
}

/// `root` approves `path`: it names a directory, and the path is that or
/// nested beneath it. A root that comes to nothing names no directory.
pub open spec fn covers(root: Seq<char>, path: Seq<char>) -> bool {
    normalized(root).len() > 0 && within(path, root)
}

/// One of the approved roots approves `path`.
pub open spec fn covered(path: Seq<char>, approved: Seq<Seq<char>>) -> bool {
    exists|i: int| 0 <= i < approved.len() && covers(#[trigger] approved[i], path)
}

/// The place a path is judged by: where the filesystem resolves it to, or its
/// lexical normal form where it does not exist.
pub open spec fn judged(path: Seq<char>, canonical: Option<Seq<char>>) -> Seq<char> {
    match canonical {
        Some(c) => c,
        None => path_text(normalized(path)),
    }
}

/// Lexically normalizes a path: leaves out `.` and resolves `..` without
/// touching the filesystem.
pub fn normalize_lexical(path: &FsPath) -> (r: FsPath)
    ensures
        r@ == path_text(normalized(path@)),
{
    let cs = normal_components(path);
    from_components(&cs)
}

/// The place a root is compared by.
pub fn resolve_root(path: &FsPath, canonical: Option<&FsPath>) -> (r: FsPath)
    ensures
        r@ == judged(path@, opt_view(canonical)),
{
    match canonical {
        Some(c) => c.clone(),
        None => normalize_lexical(path),
    }
}

/// Whether `path` equals `root` or is nested beneath it.
pub fn is_within(path: &FsPath, root: &FsPath) -> (r: bool)
    ensures
        r == within(path@, root@),
{
    is_prefix(&normal_components(root), &normal_components(path))
}

/// System-critical prefixes that must never be touched by any operation.
pub open spec fn system_deny() -> Seq<Seq<char>> {
    seq![
        "/System"@,
        "/bin"@,
        "/sbin"@,
        "/usr"@,
        "/etc"@,
        "/var/db"@,
        "/private/var/db"@,
        "/Applications"@,
        "/Library/Application Support/com.apple.TCC"@,
    ]
}

/// The folders under `base` that `subs` name.
pub open spec fn all_joined(base: Seq<char>, subs: Seq<Seq<char>>) -> Seq<Seq<char>> {
    subs.map_values(|sub: Seq<char>| joined(base, sub))
}

/// User-data prefixes protected during general cleaning.
pub open spec fn user_data_deny(home: Option<Seq<char>>) -> Seq<Seq<char>> {
    match home {
        Some(h) => all_joined(h, seq!["Documents"@, "Desktop"@, "Pictures"@, "Library/Keychains"@]),
        None => Seq::empty(),
    }
}

/// The roots under the home directory where cleaning is permitted.
pub open spec fn home_approved() -> Seq<Seq<char>> {
    seq![
        "Library/Caches"@,
        "Library/Logs"@,
        "Library/Application Support/CrashReporter"@,
        "Library/Developer"@,
        "Library/Containers"@,
        "Downloads"@,
        ".npm"@,
        ".cache"@,
        ".gradle"@,
        ".cargo/registry/cache"@,
    ]
}

/// The roots under which general cleaning is permitted at all.
pub open spec fn default_approved(home: Option<Seq<char>>) -> Seq<Seq<char>> {
    (match home {
        Some(h) => all_joined(h, home_approved()),
        None => Seq::empty(),
    }) + seq!["/Library/Caches"@, "/Library/Logs"@]
}

/// System-critical prefixes that must never be touched by any operation.
pub fn system_deny_roots() -> (r: Vec<FsPath>)
    ensures
        texts(r@) == system_deny(),
{
    let mut r: Vec<FsPath> = Vec::new();
    r.push(FsPath::new("/System"));
    r.push(FsPath::new("/bin"));
    r.push(FsPath::new("/sbin"));
    r.push(FsPath::new("/usr"));
    r.push(FsPath::new("/etc"));
    r.push(FsPath::new("/var/db"));
    r.push(FsPath::new("/private/var/db"));
    r.push(FsPath::new("/Applications"));
    r.push(FsPath::new("/Library/Application Support/com.apple.TCC"));
    assert(texts(r@) =~= system_deny());
    r
}

/// User-data prefixes protected during general cleaning. Not applied to
/// developer artifacts, which are gated by their exact name instead.
pub fn user_data_deny_roots(home: Option<&FsPath>) -> (r: Vec<FsPath>)
    ensures
        texts(r@) == user_data_deny(opt_view(home)),
{
    let mut r: Vec<FsPath> = Vec::new();
    if let Some(home) = home {
        r.push(home.join("Documents"));
        r.push(home.join("Desktop"));
        r.push(home.join("Pictures"));
        r.push(home.join("Library/Keychains"));
    }
    assert(texts(r@) =~= user_data_deny(opt_view(home)));
    r
}

/// Paths that must never be touched during general cleaning.
pub fn default_deny_roots(home: Option<&FsPath>) -> (r: Vec<FsPath>)
    ensures
        texts(r@) == system_deny() + user_data_deny(opt_view(home)),
{
    let mut r = system_deny_roots();
    let mut user = user_data_deny_roots(home);
    let ghost a = r@;
    let ghost b = user@;
    r.append(&mut user);
    assert(texts(r@) =~= texts(a) + texts(b));
    r
}

/// The roots under which general cleaning is permitted at all.
pub fn default_approved_roots(home: Option<&FsPath>) -> (r: Vec<FsPath>)
    ensures
        texts(r@) == default_approved(opt_view(home)),
{
    let mut r: Vec<FsPath> = Vec::new();
    if let Some(home) = home {
        r.push(home.join("Library/Caches"));
        r.push(home.join("Library/Logs"));
        r.push(home.join("Library/Application Support/CrashReporter"));
        r.push(home.join("Library/Developer"));
        r.push(home.join("Library/Containers"));
        r.push(home.join("Downloads"));
        r.push(home.join(".npm"));
        r.push(home.join(".cache"));
        r.push(home.join(".gradle"));
        r.push(home.join(".cargo/registry/cache"));
    }
    r.push(FsPath::new("/Library/Caches"));
    r.push(FsPath::new("/Library/Logs"));
    assert(texts(r@) =~= default_approved(opt_view(home)));
    r
}

/// `root` is where a root given as `path` is compared, for an answer that
/// `canonicalize` can give.
pub open spec fn resolves_to<C: Fn(&FsPath) -> Option<FsPath>>(canonicalize: C, path: FsPath, root: FsPath) -> bool {
    exists|answer: Option<FsPath>| #[trigger]
        call_ensures(canonicalize, (&path,), answer) && root@ == judged(path@, opt_view(
            match answer {
                Some(p) => Some(&p),
                None => None,
            },
        ))
}

/// Each of `roots` is where the path at its place in `given` is compared.
pub open spec fn all_resolve<C: Fn(&FsPath) -> Option<FsPath>>(
    canonicalize: C,
    given: Seq<FsPath>,
    roots: Seq<FsPath>,
) -> bool {
    &&& roots.len() == given.len()
    &&& forall|i: int| 0 <= i < given.len() ==> resolves_to(canonicalize, #[trigger] given[i], roots[i])
}

/// Resolves every root of a list.
pub fn resolve_roots<C: Fn(&FsPath) -> Option<FsPath>>(given: &Vec<FsPath>, canonicalize: &C) -> (r: Vec<FsPath>)
    requires
        forall|p: &FsPath| call_requires(*canonicalize, (p,)),
    ensures
        all_resolve(*canonicalize, given@, r@),
{
    let mut r: Vec<FsPath> = Vec::new();
    let mut i: usize = 0;
    while i < given.len()
        invariant
            forall|p: &FsPath| call_requires(*canonicalize, (p,)),
            i <= given@.len(),
            r@.len() == i,
            forall|j: int| 0 <= j < i ==> resolves_to(*canonicalize, #[trigger] given@[j], r@[j]),
        decreases given@.len() - i,
    {
        let answer = canonicalize(&given[i]);
        let root = resolve_root(&given[i], answer.as_ref());
        assert(resolves_to(*canonicalize, given@[i as int], root));
        r.push(root);
        i += 1;
    }
    r
}

/// Why a path was refused, as a mathematical value.
pub enum Refusal {
    Denied(Seq<char>),
    Outside,
    Home,
    Malformed,
}

impl View for RefusalReason {
    type V = Refusal;

    open spec fn view(&self) -> Refusal {
        match self {
            RefusalReason::DeniedRoot(p) => Refusal::Denied(p@),
            RefusalReason::OutsideApprovedRoots => Refusal::Outside,
            RefusalReason::HomeRoot => Refusal::Home,
            RefusalReason::Malformed => Refusal::Malformed,
        }
    }
}

/// What the guard answers, as a mathematical value.
pub open spec fn answer_view(r: Result<FsPath, RefusalReason>) -> Result<Seq<char>, Refusal> {
    match r {
        Ok(p) => Ok(p@),
        Err(e) => Err(e@),
    }
}

/// The first of `roots` that holds `path`, or the number of roots.
pub open spec fn first_holding(path: Seq<char>, roots: Seq<Seq<char>>) -> nat
    decreases roots.len(),
{
    if roots.len() == 0 {
        0
    } else if within(path, roots[0]) {
        0
    } else {
        1 + first_holding(path, roots.drop_first())
    }
}

/// The guard's rule, from where a path resolves to and where home is.
pub open spec fn verdict(
    deny: Seq<Seq<char>>,
    approved: Seq<Seq<char>>,
    path: Seq<char>,
    canonical: Option<Seq<char>>,
    home: Option<Seq<char>>,
) -> Result<Seq<char>, Refusal> {
    let place = judged(path, canonical);
    let denied = first_holding(place, deny);
    if path.len() == 0 {
        Err(Refusal::Malformed)
    } else if home is Some && same_path(place, home->0) {
        Err(Refusal::Home)
    } else if denied < deny.len() {
        Err(Refusal::Denied(deny[denied as int]))
    } else if covered(place, approved) {
        Ok(place)
    } else {
        Err(Refusal::Outside)
    }
}

/// The position of the first root that holds `path`.
fn position_holding(path: &FsPath, roots: &Vec<FsPath>) -> (r: usize)
    ensures
        r == first_holding(path@, texts(roots@)),
        r <= roots@.len(),
{
    let mut i: usize = 0;
    let ghost all = texts(roots@);
    assert(all.skip(0) =~= all);
    while i < roots.len()
        invariant
            all == texts(roots@),
            i <= roots@.len(),
            first_holding(path@, all) == i + first_holding(path@, all.skip(i as int)),
        decreases roots@.len() - i,
    {
        if is_within(path, &roots[i]) {
            return i;
        }
        assert(all.skip(i as int).drop_first() =~= all.skip(i + 1));
        i += 1;
    }
    i
}

/// Whether one of the approved roots approves `path`.
fn is_covered(path: &FsPath, approved: &Vec<FsPath>) -> (r: bool)
    ensures
        r == covered(path@, texts(approved@)),
{
    let ghost all = texts(approved@);
    let mut i: usize = 0;
    while i < approved.len()
        invariant
            all == texts(approved@),
            i <= approved@.len(),
            forall|k: int| 0 <= k < i ==> !covers(#[trigger] all[k], path@),
        decreases approved@.len() - i,
    {
        assert(all[i as int] == approved@[i as int]@);
        let parts = normal_components(&approved[i]);
        assert(parts_view(parts@).len() == parts@.len());
        if parts.len() > 0 && is_within(path, &approved[i]) {
            return true;
        }
        i += 1;
    }
    false
}

/// Validates paths against deny and approve rules before any deletion.
#[derive(Debug)]
pub struct SafetyGuard {
    deny_roots: Vec<FsPath>,
    approved_roots: Vec<FsPath>,
}

impl SafetyGuard {
    /// The places where nothing may be removed.
    pub closed spec fn denies(&self) -> Seq<Seq<char>> {
        texts(self.deny_roots@)
    }

    /// The places where something may be removed.
    pub closed spec fn approves(&self) -> Seq<Seq<char>> {
        texts(self.approved_roots@)
    }

    /// The rule of this guard.
    pub open spec fn rules_on(
        &self,
        path: Seq<char>,
        canonical: Option<Seq<char>>,
        home: Option<Seq<char>>,
    ) -> Result<Seq<char>, Refusal> {
        verdict(self.denies(), self.approves(), path, canonical, home)
    }

    /// This guard's roots are where the given paths resolve to.
    pub open spec fn built_from<C: Fn(&FsPath) -> Option<FsPath>>(
        &self,
        canonicalize: C,
        deny: Seq<Seq<char>>,
        approved: Seq<Seq<char>>,
    ) -> bool {
        resolved_from(canonicalize, deny, self.denies()) && resolved_from(canonicalize, approved, self.approves())
    }

    /// A guard whose roots are resolved the way [`SafetyGuard::validate`]
    /// resolves the path it judges, so that both name a place the same way.
    fn new<C: Fn(&FsPath) -> Option<FsPath>>(
        deny_roots: Vec<FsPath>,
        approved_roots: Vec<FsPath>,
        canonicalize: &C,
    ) -> (r: Self)
        requires
            forall|p: &FsPath| call_requires(*canonicalize, (p,)),
        ensures
            r.built_from(*canonicalize, texts(deny_roots@), texts(approved_roots@)),
    {
        let deny = resolve_roots(&deny_roots, canonicalize);
        let approved = resolve_roots(&approved_roots, canonicalize);
        proof {
            lemma_resolved_from(*canonicalize, deny_roots@, deny@);
            lemma_resolved_from(*canonicalize, approved_roots@, approved@);
        }
        SafetyGuard { deny_roots: deny, approved_roots: approved }
    }

    /// A guard for general cleaning.
    pub fn default<C: Fn(&FsPath) -> Option<FsPath>>(home: Option<&FsPath>, canonicalize: &C) -> (r: Self)
        requires
            forall|p: &FsPath| call_requires(*canonicalize, (p,)),
        ensures
            r.built_from(
                *canonicalize,
                system_deny() + user_data_deny(opt_view(home)),
                default_approved(opt_view(home)),
            ),
    {
        Self::new(default_deny_roots(home), default_approved_roots(home), canonicalize)
    }

    /// A guard with explicit roots.
    pub fn with_roots<C: Fn(&FsPath) -> Option<FsPath>>(
        deny_roots: Vec<FsPath>,
        approved_roots: Vec<FsPath>,
        canonicalize: &C,
    ) -> (r: Self)
        requires
            forall|p: &FsPath| call_requires(*canonicalize, (p,)),
        ensures
            r.built_from(*canonicalize, texts(deny_roots@), texts(approved_roots@)),
    {
        Self::new(deny_roots, approved_roots, canonicalize)
    }

    /// A guard for developer-artifact cleaning: it denies only the
    /// system-critical roots and approves nothing, so that only what the
    /// caller approves one by one becomes removable.
    pub fn system_only<C: Fn(&FsPath) -> Option<FsPath>>(canonicalize: &C) -> (r: Self)
        requires
            forall|p: &FsPath| call_requires(*canonicalize, (p,)),
        ensures
            r.built_from(*canonicalize, system_deny(), Seq::empty()),
    {
        let none: Vec<FsPath> = Vec::new();
        assert(texts(none@) =~= Seq::empty());
        Self::new(system_deny_roots(), none, canonicalize)
    }

    /// A guard for app uninstallation: like [`SafetyGuard::system_only`] but
    /// `/Applications` is not denied, so that one bundle can be approved.
    pub fn for_uninstall<C: Fn(&FsPath) -> Option<FsPath>>(canonicalize: &C) -> (r: Self)
        requires
            forall|p: &FsPath| call_requires(*canonicalize, (p,)),
        ensures
            r.built_from(*canonicalize, uninstall_deny(), Seq::empty()),
    {
        let all = system_deny_roots();
        let applications = FsPath::new("/Applications");
        let ghost keep = |p: Seq<char>| !same_path(p, "/Applications"@);
        let mut deny: Vec<FsPath> = Vec::new();
        let mut i: usize = 0;
        while i < all.len()
            invariant
                i <= all@.len(),
                applications@ == "/Applications"@,
                keep == (|p: Seq<char>| !same_path(p, "/Applications"@)),
                texts(deny@) == texts(all@).take(i as int).filter(keep),
            decreases all@.len() - i,
        {
            let ghost before = texts(deny@);
            proof {
                reveal(Seq::filter);
                assert(texts(all@).take(i + 1).drop_last() =~= texts(all@).take(i as int));
            }
            if !all[i].same(&applications) {
                deny.push(all[i].clone());
                assert(texts(deny@) =~= before.push(all@[i as int]@));
            }
            i += 1;
        }
        assert(texts(all@).take(i as int) =~= texts(all@));
        let none: Vec<FsPath> = Vec::new();
        assert(texts(none@) =~= Seq::empty());
        Self::new(deny, none, canonicalize)
    }

    /// Adds an approved root, given where it resolves to.
    pub fn approve_root(&mut self, root: &FsPath, canonical: Option<&FsPath>)
        ensures
            final(self).denies() == old(self).denies(),
            final(self).approves() == approved_with(old(self).approves(), judged(root@, opt_view(canonical))),
    {
        let place = resolve_root(root, canonical);
        let mut i: usize = 0;
        while i < self.approved_roots.len()
            invariant
                self == old(self),
                place@ == judged(root@, opt_view(canonical)),
                i <= self.approved_roots@.len(),
                forall|j: int| 0 <= j < i ==> !same_path(#[trigger] self.approves()[j], place@),
            decreases self.approved_roots@.len() - i,
        {
            if self.approved_roots[i].same(&place) {
                assert(self.approves().len() == self.approved_roots@.len());
                assert(same_path(self.approves()[i as int], place@));
                return ;
            }
            i += 1;
        }
        assert(self.approves().len() == self.approved_roots@.len());
        self.approved_roots.push(place);
        assert(self.approves() =~= old(self).approves().push(place@));
    }

    /// Decides whether `path` may be removed, given the place the filesystem
    /// resolves it to. Returns that place when it may.
    pub fn validate(&self, path: &FsPath, canonical: Option<&FsPath>, home: Option<&FsPath>) -> (r: Result<
        FsPath,
        RefusalReason,
    >)
        ensures
            answer_view(r) == self.rules_on(path@, opt_view(canonical), opt_view(home)),
    {
        if path.is_empty() {
            return Err(RefusalReason::Malformed);
        }
        let resolved = resolve_root(path, canonical);
        if let Some(home) = home {
            if resolved.same(home) {
                return Err(RefusalReason::HomeRoot);
            }
        }
        let denied: usize = position_holding(&resolved, &self.deny_roots);
        if denied < self.deny_roots.len() {
            return Err(RefusalReason::DeniedRoot(self.deny_roots[denied].clone()));
        }
        if is_covered(&resolved, &self.approved_roots) {
            Ok(resolved)
        } else {
            Err(RefusalReason::OutsideApprovedRoots)
        }
    }
}

/// `roots` are the texts of where the paths written `given` resolve to.
pub open spec fn resolved_from<C: Fn(&FsPath) -> Option<FsPath>>(
    canonicalize: C,
    given: Seq<Seq<char>>,
    roots: Seq<Seq<char>>,
) -> bool {
    exists|g: Seq<FsPath>, r: Seq<FsPath>| #[trigger]
        all_resolve(canonicalize, g, r) && texts(g) == given && texts(r) == roots
}

proof fn lemma_resolved_from<C: Fn(&FsPath) -> Option<FsPath>>(canonicalize: C, g: Seq<FsPath>, r: Seq<FsPath>)
    requires
        all_resolve(canonicalize, g, r),
    ensures
        resolved_from(canonicalize, texts(g), texts(r)),
{
}

/// The system-critical prefixes without the folder that apps live in.
pub open spec fn uninstall_deny() -> Seq<Seq<char>> {
    system_deny().filter(|p: Seq<char>| !same_path(p, "/Applications"@))
}

/// `roots` with `root` added, unless a root already names the same path.
pub open spec fn approved_with(roots: Seq<Seq<char>>, root: Seq<char>) -> Seq<Seq<char>> {
    if exists|i: int| 0 <= i < roots.len() && same_path(#[trigger] roots[i], root) {
        roots
    } else {
        roots.push(root)
    }
}

proof fn lemma_first_holding(path: Seq<char>, roots: Seq<Seq<char>>)
    ensures
        first_holding(path, roots) <= roots.len(),
        first_holding(path, roots) < roots.len() ==> within(path, roots[first_holding(path, roots) as int]),
        forall|i: int| 0 <= i < first_holding(path, roots) ==> !within(path, #[trigger] roots[i]),
    decreases roots.len(),
{
    if roots.len() > 0 && !within(path, roots[0]) {
        let rest = roots.drop_first();
        lemma_first_holding(path, rest);
        let n = first_holding(path, rest);
        assert forall|i: int| 0 <= i < first_holding(path, roots) implies !within(path, #[trigger] roots[i]) by {
            if i > 0 {
                assert(roots[i] == rest[i - 1]);
            }
        }
        if n < rest.len() {
            assert(rest[n as int] == roots[n as int + 1]);
        }
    }
}

/// What the guard lets through lies inside an approved root, outside every
/// denied root, and is not the home directory; and a place that meets all
/// three is let through.
pub proof fn approved_exactly_when_safe(
    guard: SafetyGuard,
    path: Seq<char>,
    canonical: Option<Seq<char>>,
    home: Option<Seq<char>>,
)
    ensures
        guard.rules_on(path, canonical, home) is Ok <==> {
            let place = judged(path, canonical);
            &&& path.len() > 0
            &&& !(home is Some && same_path(place, home->0))
            &&& forall|i: int| 0 <= i < guard.denies().len() ==> !within(place, #[trigger] guard.denies()[i])
            &&& covered(place, guard.approves())
        },
        guard.rules_on(path, canonical, home) is Ok ==> guard.rules_on(path, canonical, home)->Ok_0 == judged(
            path,
            canonical,
        ),
{
    let place = judged(path, canonical);
    lemma_first_holding(place, guard.denies());
}

/// Approving the same root twice is the same as approving it once.
pub proof fn approving_twice_changes_nothing(roots: Seq<Seq<char>>, root: Seq<char>)
    ensures
        approved_with(approved_with(roots, root), root) == approved_with(roots, root),
{
    let once = approved_with(roots, root);
    if once != roots {
        assert(same_path(once[once.len() - 1], root));
    }
}

/// Approving a root never refuses a path that was let through before, and
/// never lets a path through that a denied root holds.
pub proof fn approving_only_adds(
    before: SafetyGuard,
    after: SafetyGuard,
    root: Seq<char>,
    path: Seq<char>,
    canonical: Option<Seq<char>>,
    home: Option<Seq<char>>,
)
    requires
        after.denies() == before.denies(),
        after.approves() == approved_with(before.approves(), root),
    ensures
        before.rules_on(path, canonical, home) is Ok ==> after.rules_on(path, canonical, home)
            == before.rules_on(path, canonical, home),
        before.rules_on(path, canonical, home) is Err && before.rules_on(path, canonical, home)->Err_0 !is Outside
            ==> after.rules_on(path, canonical, home) == before.rules_on(path, canonical, home),
        before.rules_on(path, canonical, home) is Err && after.rules_on(path, canonical, home) is Ok ==> covers(
            root,
            judged(path, canonical),
        ),
{
    let place = judged(path, canonical);
    if covered(place, before.approves()) {
        let n = choose|n: int| 0 <= n < before.approves().len() && covers(#[trigger] before.approves()[n], place);
        assert(after.approves()[n] == before.approves()[n]);
    }
    if covered(place, after.approves()) {
        let m = choose|m: int| 0 <= m < after.approves().len() && covers(#[trigger] after.approves()[m], place);
        if m < before.approves().len() {
            assert(after.approves()[m] == before.approves()[m]);
        }
    }
}

/// A root that comes to nothing names no directory, and approving it lets
/// nothing through.
pub proof fn an_empty_root_approves_nothing(
    before: SafetyGuard,
    after: SafetyGuard,
    root: Seq<char>,
    path: Seq<char>,
    canonical: Option<Seq<char>>,
    home: Option<Seq<char>>,
)
    requires
        normalized(root).len() == 0,
        after.denies() == before.denies(),
        after.approves() == approved_with(before.approves(), root),
    ensures
        after.rules_on(path, canonical, home) == before.rules_on(path, canonical, home),
{
    approving_only_adds(before, after, root, path, canonical, home);
}

proof fn lemma_normal_parts_shape(ps: Seq<Part>)
    requires
        well_formed(ps),
    ensures
        well_formed(normal_parts(ps)),
        forall|i: int|
            0 <= i < normal_parts(ps).len() ==> (#[trigger] normal_parts(ps)[i]) is Name || (i == 0
                && normal_parts(ps)[i] is Root && ps[0] is Root),
    decreases ps.len(),
{
    if ps.len() > 0 {
        let front = ps.drop_last();
        lemma_well_formed_front(ps);
        lemma_normal_parts_shape(front);
        let before = normal_parts(front);
        let last = ps.last();
        assert(ps[ps.len() - 1] == last);
        if ps.len() > 1 {
            assert(front[0] == ps[0]);
        } else {
            assert(before =~= Seq::<Part>::empty());
        }
        match last {
            Part::Parent => {
                if before.len() > 0 && before.last() is Name {
                    lemma_well_formed_front(before);
                }
            },
            Part::Current => {},
            Part::Root => {
                assert(front =~= Seq::<Part>::empty());
            },
            Part::Name(name) => {
                assert(is_name(name));
                assert forall|i: int| 0 <= i < before.push(last).len() implies match #[trigger] before.push(last)[i] {
                    Part::Root => i == 0,
                    Part::Current => i == 0,
                    Part::Parent => true,
                    Part::Name(name) => is_name(name),
                } by {
                    if i < before.len() {
                        assert(before.push(last)[i] == before[i]);
                    }
                }
            },
        }
    }
}

proof fn lemma_normal_parts_fixed(ps: Seq<Part>)
    requires
        forall|i: int| 0 <= i < ps.len() ==> (#[trigger] ps[i]) is Name || ps[i] is Root,
    ensures
        normal_parts(ps) == ps,
    decreases ps.len(),
{
    if ps.len() > 0 {
        let front = ps.drop_last();
        assert forall|i: int| 0 <= i < front.len() implies (#[trigger] front[i]) is Name || front[i] is Root by {
            assert(front[i] == ps[i]);
        }
        lemma_normal_parts_fixed(front);
        assert(ps[ps.len() - 1] == ps.last());
        assert(front.push(ps.last()) =~= ps);
    }
}

/// Normalizing a path lexically leaves no `.` and no `..` in it, and
/// normalizing twice is the same as normalizing once.
pub proof fn normalizing_is_idempotent(path: Seq<char>)
    ensures
        parts(path_text(normalized(path))) == normalized(path),
        normalized(path_text(normalized(path))) == normalized(path),
        forall|i: int|
            0 <= i < normalized(path).len() ==> (#[trigger] normalized(path)[i]) is Name || (i == 0
                && normalized(path)[i] is Root),
{
    lemma_parts_well_formed(path);
    lemma_normal_parts_shape(parts(path));
    lemma_parts_path_text(normalized(path));
    lemma_normal_parts_fixed(normalized(path));
}

/// A `..` cannot lead out of an approved root: where a path that does not
/// exist is let through, the place named really lies, component by component,
/// beneath an approved root.
pub proof fn traversal_cannot_escape(guard: SafetyGuard, path: Seq<char>, home: Option<Seq<char>>)
    requires
        guard.rules_on(path, None, home) is Ok,
    ensures
        exists|i: int|
            0 <= i < guard.approves().len() && normalized(#[trigger] guard.approves()[i]).len() > 0 && normalized(
                guard.approves()[i],
            ).is_prefix_of(parts(guard.rules_on(path, None, home)->Ok_0)),
        forall|i: int|
            0 <= i < guard.denies().len() ==> !normalized(#[trigger] guard.denies()[i]).is_prefix_of(
                parts(guard.rules_on(path, None, home)->Ok_0),
            ),
{
    approved_exactly_when_safe(guard, path, None, home);
    normalizing_is_idempotent(path);
}

/// One path resolves to one place.
pub open spec fn steady<C: Fn(&FsPath) -> Option<FsPath>>(canonicalize: C) -> bool {
    forall|p: FsPath, q: FsPath, a: FsPath, b: FsPath|
        p@ == q@ && #[trigger] resolves_to(canonicalize, p, a) && #[trigger] resolves_to(canonicalize, q, b) ==> a@ == b@
}

/// The folder that apps live in is where its name says, and no link.
pub open spec fn applications_in_place<C: Fn(&FsPath) -> Option<FsPath>>(canonicalize: C) -> bool {
    forall|p: FsPath, a: FsPath|
        same_path(p@, "/Applications"@) && #[trigger] resolves_to(canonicalize, p, a) ==> same_path(
            a@,
            "/Applications"@,
        )
}

/// The first root that holds the place.
pub open spec fn holder(place: Seq<char>, roots: Seq<Seq<char>>) -> Option<Seq<char>>
    decreases roots.len(),
{
    if roots.len() == 0 {
        None
    } else if holder(place, roots.drop_last()) is Some {
        holder(place, roots.drop_last())
    } else if within(place, roots.last()) {
        Some(roots.last())
    } else {
        None
    }
}

proof fn lemma_holder(place: Seq<char>, roots: Seq<Seq<char>>)
    ensures
        holder(place, roots) == if first_holding(place, roots) < roots.len() {
            Some(roots[first_holding(place, roots) as int])
        } else {
            None
        },
    decreases roots.len(),
{
    lemma_first_holding(place, roots);
    if roots.len() > 0 {
        let front = roots.drop_last();
        lemma_holder(place, front);
        lemma_first_holding(place, front);
        let (n, m) = (first_holding(place, roots) as int, first_holding(place, front) as int);
        if m < front.len() {
            assert(roots[m] == front[m]);
            assert(n <= m);
            if n < m {
                assert(front[n] == roots[n]);
            }
        } else {
            assert forall|i: int| 0 <= i < front.len() implies !within(place, #[trigger] roots[i]) by {
                assert(roots[i] == front[i]);
            }
        }
    }
}

proof fn lemma_same_but_for_applications<C: Fn(&FsPath) -> Option<FsPath>>(
    canonicalize: C,
    given: Seq<FsPath>,
    roots: Seq<FsPath>,
    fewer: Seq<FsPath>,
    left: Seq<FsPath>,
    place: Seq<char>,
)
    requires
        steady(canonicalize),
        applications_in_place(canonicalize),
        all_resolve(canonicalize, given, roots),
        all_resolve(canonicalize, fewer, left),
        texts(fewer) == texts(given).filter(|p: Seq<char>| !same_path(p, "/Applications"@)),
    ensures
        !within(place, "/Applications"@) ==> holder(place, texts(roots)) == holder(place, texts(left)),
        holder(place, texts(left)) is None && holder(place, texts(roots)) is Some ==> same_path(
            holder(place, texts(roots))->0,
            "/Applications"@,
        ),
    decreases given.len(),
{
    reveal(Seq::filter);
    let keep = |p: Seq<char>| !same_path(p, "/Applications"@);
    if given.len() == 0 {
        assert(texts(given) =~= Seq::<Seq<char>>::empty());
        assert(texts(fewer).len() == 0);
        assert(texts(roots) =~= texts(left));
    } else {
        let n = given.len() - 1;
        let front = given.drop_last();
        assert(texts(given).drop_last() =~= texts(front));
        assert(texts(roots).drop_last() =~= texts(roots.drop_last()));
        assert(resolves_to(canonicalize, given[n], roots[n]));
        assert forall|j: int| 0 <= j < front.len() implies resolves_to(
            canonicalize,
            #[trigger] front[j],
            roots.drop_last()[j],
        ) by {
            assert(resolves_to(canonicalize, given[j], roots[j]));
        }
        assert(all_resolve(canonicalize, front, roots.drop_last()));
        if keep(given[n]@) {
            let m = fewer.len() - 1;
            assert(texts(fewer).len() > 0);
            assert(texts(fewer).last() == given[n]@);
            assert(texts(fewer).drop_last() =~= texts(front).filter(keep));
            assert(texts(fewer.drop_last()) =~= texts(fewer).drop_last());
            assert(resolves_to(canonicalize, fewer[m], left[m]));
            assert(roots[n]@ == left[m]@);
            assert(texts(left).drop_last() =~= texts(left.drop_last()));
            assert forall|j: int| 0 <= j < fewer.drop_last().len() implies resolves_to(
                canonicalize,
                #[trigger] fewer.drop_last()[j],
                left.drop_last()[j],
            ) by {
                assert(resolves_to(canonicalize, fewer[j], left[j]));
            }
            assert(all_resolve(canonicalize, fewer.drop_last(), left.drop_last()));
            lemma_same_but_for_applications(
                canonicalize,
                front,
                roots.drop_last(),
                fewer.drop_last(),
                left.drop_last(),
                place,
            );
        } else {
            lemma_same_but_for_applications(canonicalize, front, roots.drop_last(), fewer, left, place);
            assert(same_path(roots[n]@, "/Applications"@));
            assert(within(place, roots[n]@) == within(place, "/Applications"@));
        }
    }
}

/// The guard for uninstalling and the one that denies the system's own places
/// answer alike outside the folder that apps live in, once the same roots are
/// approved. Inside it, what the one lets through the other denies on that
/// folder's account. With nothing approved neither lets anything through.
pub proof fn uninstalling_differs_only_where_apps_live<C: Fn(&FsPath) -> Option<FsPath>>(
    canonicalize: C,
    fresh_uninstall: SafetyGuard,
    fresh_system: SafetyGuard,
    uninstall: SafetyGuard,
    system: SafetyGuard,
    path: Seq<char>,
    canonical: Option<Seq<char>>,
    home: Option<Seq<char>>,
)
    requires
        steady(canonicalize),
        applications_in_place(canonicalize),
        fresh_uninstall.built_from(canonicalize, uninstall_deny(), Seq::empty()),
        fresh_system.built_from(canonicalize, system_deny(), Seq::empty()),
        uninstall.denies() == fresh_uninstall.denies(),
        system.denies() == fresh_system.denies(),
        uninstall.approves() == system.approves(),
    ensures
        fresh_uninstall.rules_on(path, canonical, home) is Err,
        fresh_system.rules_on(path, canonical, home) is Err,
        !within(judged(path, canonical), "/Applications"@) ==> uninstall.rules_on(path, canonical, home)
            == system.rules_on(path, canonical, home),
        within(judged(path, canonical), "/Applications"@) && uninstall.rules_on(path, canonical, home) is Ok ==> {
            let answer = system.rules_on(path, canonical, home);
            answer is Err && answer->Err_0 is Denied && same_path(answer->Err_0->Denied_0, "/Applications"@)
        },
{
    let place = judged(path, canonical);
    let (g, r) = choose|g: Seq<FsPath>, r: Seq<FsPath>| #[trigger]
        all_resolve(canonicalize, g, r) && texts(g) == system_deny() && texts(r) == system.denies();
    let (f, l) = choose|f: Seq<FsPath>, l: Seq<FsPath>| #[trigger]
        all_resolve(canonicalize, f, l) && texts(f) == uninstall_deny() && texts(l) == uninstall.denies();
    lemma_same_but_for_applications(canonicalize, g, r, f, l, place);
    lemma_holder(place, system.denies());
    lemma_holder(place, uninstall.denies());
    assert(fresh_uninstall.approves().len() == 0) by {
        let (a, b) = choose|a: Seq<FsPath>, b: Seq<FsPath>| #[trigger]
            all_resolve(canonicalize, a, b) && texts(a) == Seq::<Seq<char>>::empty() && texts(b)
                == fresh_uninstall.approves();
        assert(texts(a).len() == a.len());
    }
    assert(fresh_system.approves().len() == 0) by {
        let (a, b) = choose|a: Seq<FsPath>, b: Seq<FsPath>| #[trigger]
            all_resolve(canonicalize, a, b) && texts(a) == Seq::<Seq<char>>::empty() && texts(b)
                == fresh_system.approves();
        assert(texts(a).len() == a.len());
    }
    if within(place, "/Applications"@) && uninstall.rules_on(path, canonical, home) is Ok {
        approved_exactly_when_safe(uninstall, path, canonical, home);
        lemma_denies_applications(canonicalize, g, r);
        let k = choose|k: int| 0 <= k < r.len() && same_path(#[trigger] r[k]@, "/Applications"@);
        lemma_first_holding(place, system.denies());
        assert(system.denies()[k] == r[k]@);
        assert(within(place, system.denies()[k]));
        let root = holder(place, system.denies())->0;
        assert(system.rules_on(path, canonical, home) == Err::<Seq<char>, Refusal>(Refusal::Denied(root)));
    }
}

proof fn lemma_denies_applications<C: Fn(&FsPath) -> Option<FsPath>>(
    canonicalize: C,
    given: Seq<FsPath>,
    roots: Seq<FsPath>,
)
    requires
        applications_in_place(canonicalize),
        all_resolve(canonicalize, given, roots),
        texts(given) == system_deny(),
    ensures
        exists|k: int| 0 <= k < roots.len() && same_path(#[trigger] roots[k]@, "/Applications"@),
{
    assert(texts(given).len() == given.len());
    assert(texts(given)[7] == given[7]@);
    assert(resolves_to(canonicalize, given[7], roots[7]));
    assert(same_path(roots[7]@, "/Applications"@));
}

/// The places that nothing may ever touch.
pub open spec fn critical(root: Seq<char>) -> bool {
    ||| root == "/System"@
    ||| root == "/bin"@
    ||| root == "/sbin"@
    ||| root == "/usr"@
    ||| root == "/etc"@
    ||| root == "/var/db"@
    ||| root == "/private/var/db"@
    ||| root == "/Applications"@
    ||| root == "/Library/Application Support/com.apple.TCC"@
}

/// The folders of a home that hold the user's own data.
pub open spec fn own_data(sub: Seq<char>) -> bool {
    sub == "Documents"@ || sub == "Desktop"@ || sub == "Pictures"@ || sub == "Library/Keychains"@
}

/// The folders of a home that are cleaned by default.
pub open spec fn cleaned_at_home(sub: Seq<char>) -> bool {
    ||| sub == "Library/Caches"@
    ||| sub == "Library/Logs"@
    ||| sub == "Library/Application Support/CrashReporter"@
    ||| sub == "Library/Developer"@
    ||| sub == "Library/Containers"@
    ||| sub == "Downloads"@
    ||| sub == ".npm"@
    ||| sub == ".cache"@
    ||| sub == ".gradle"@
    ||| sub == ".cargo/registry/cache"@
}

/// What is denied and what is approved from the start: all of the places
/// named, and no others. Uninstalling denies what cleaning artifacts denies,
/// but for the folder of apps.
pub proof fn what_is_denied_and_approved(root: Seq<char>, sub: Seq<char>, home: Seq<char>)
    ensures
        system_deny().contains(root) <==> critical(root),
        uninstall_deny().contains(root) ==> critical(root) && !same_path(root, "/Applications"@),
        critical(root) && !same_path(root, "/Applications"@) ==> uninstall_deny().contains(root),
        own_data(sub) ==> user_data_deny(Some(home)).contains(joined(home, sub)),
        user_data_deny(Some(home)).contains(root) ==> exists|s: Seq<char>| #[trigger] own_data(s) && root == joined(home, s),
        user_data_deny(None).len() == 0,
        cleaned_at_home(sub) ==> default_approved(Some(home)).contains(joined(home, sub)),
        default_approved(Some(home)).contains("/Library/Caches"@) && default_approved(None).contains("/Library/Caches"@),
        default_approved(Some(home)).contains("/Library/Logs"@) && default_approved(None).contains("/Library/Logs"@),
        default_approved(None).len() == 2,
        default_approved(Some(home)).contains(root) ==> root == "/Library/Caches"@ || root == "/Library/Logs"@ || exists|
            s: Seq<char>,
        | #[trigger] cleaned_at_home(s) && root == joined(home, s),
{
    let deny = system_deny();
    assert(deny[0] == "/System"@ && deny[1] == "/bin"@ && deny[2] == "/sbin"@ && deny[3] == "/usr"@ && deny[4] == "/etc"@);
    assert(deny[5] == "/var/db"@ && deny[6] == "/private/var/db"@ && deny[7] == "/Applications"@ && deny[8]
        == "/Library/Application Support/com.apple.TCC"@);
    assert(deny.len() == 9);
    if deny.contains(root) {
        let i = choose|i: int| 0 <= i < deny.len() && deny[i] == root;
        assert(i == 0 || i == 1 || i == 2 || i == 3 || i == 4 || i == 5 || i == 6 || i == 7 || i == 8);
    }
    let keep = |p: Seq<char>| !same_path(p, "/Applications"@);
    if uninstall_deny().contains(root) {
        let j = choose|j: int| 0 <= j < uninstall_deny().len() && uninstall_deny()[j] == root;
        deny.lemma_filter_contains_rev(keep, root);
        deny.lemma_filter_pred(keep, j);
    }
    if critical(root) && !same_path(root, "/Applications"@) {
        let i = choose|i: int| 0 <= i < deny.len() && deny[i] == root;
        deny.lemma_filter_contains(keep, i);
    }
    let own = seq!["Documents"@, "Desktop"@, "Pictures"@, "Library/Keychains"@];
    let data = user_data_deny(Some(home));
    assert(data.len() == 4);
    assert(data[0] == joined(home, "Documents"@) && data[1] == joined(home, "Desktop"@) && data[2] == joined(
        home,
        "Pictures"@,
    ) && data[3] == joined(home, "Library/Keychains"@));
    if data.contains(root) {
        let i = choose|i: int| 0 <= i < data.len() && data[i] == root;
        assert(own_data(own[i]) && root == joined(home, own[i])) by {
            assert(i == 0 || i == 1 || i == 2 || i == 3);
        }
    }
    let subs = home_approved();
    let roots = default_approved(Some(home));
    assert(subs.len() == 10 && roots.len() == 12);
    assert(forall|i: int| 0 <= i < 10 ==> #[trigger] roots[i] == joined(home, subs[i]));
    assert(roots[0] == joined(home, "Library/Caches"@) && roots[1] == joined(home, "Library/Logs"@) && roots[2] == joined(
        home,
        "Library/Application Support/CrashReporter"@,
    ) && roots[3] == joined(home, "Library/Developer"@) && roots[4] == joined(home, "Library/Containers"@));
    assert(roots[5] == joined(home, "Downloads"@) && roots[6] == joined(home, ".npm"@) && roots[7] == joined(
        home,
        ".cache"@,
    ) && roots[8] == joined(home, ".gradle"@) && roots[9] == joined(home, ".cargo/registry/cache"@));
    assert(roots[10] == "/Library/Caches"@ && roots[11] == "/Library/Logs"@);
    assert(default_approved(None)[0] == "/Library/Caches"@ && default_approved(None)[1] == "/Library/Logs"@);
    if roots.contains(root) {
        let i = choose|i: int| 0 <= i < roots.len() && roots[i] == root;
        if i < 10 {
            assert(cleaned_at_home(subs[i])) by {
                assert(i == 0 || i == 1 || i == 2 || i == 3 || i == 4 || i == 5 || i == 6 || i == 7 || i == 8 || i == 9);
            }
            assert(root == joined(home, subs[i]));
        }
    }
}

proof fn lemma_holds_first(path: Seq<char>, roots: Seq<Seq<char>>)
    ensures
        first_holding(path, roots) < roots.len() ==> within(path, roots[first_holding(path, roots) as int]),
        forall|i: int| 0 <= i < roots.len() && within(path, #[trigger] roots[i]) ==> first_holding(path, roots) <= i,
    decreases roots.len(),
{
    if roots.len() > 0 && !within(path, roots[0]) {
        let rest = roots.drop_first();
        lemma_holds_first(path, rest);
        assert forall|i: int| 0 <= i < roots.len() && within(path, #[trigger] roots[i]) implies first_holding(path, roots)
            <= i by {
            assert(rest[i - 1] == roots[i]);
        }
        if first_holding(path, roots) < roots.len() {
            assert(roots[first_holding(path, roots) as int] == rest[first_holding(path, rest) as int]);
        }
    }
}

/// Every refusal has its reason, and comes exactly where the reason holds: an
/// empty path; home; a denied place, which is named; and what no approved
/// place holds. Where the filesystem resolves a path to, and not how it is
/// written, is what counts.
pub proof fn each_refusal_has_its_reason(
    deny: Seq<Seq<char>>,
    approved: Seq<Seq<char>>,
    path: Seq<char>,
    other: Seq<char>,
    canonical: Option<Seq<char>>,
    home: Option<Seq<char>>,
    d: int,
)
    ensures
        ({
            let r = verdict(deny, approved, path, canonical, home);
            let place = judged(path, canonical);
            &&& path.len() == 0 <==> r == Err::<Seq<char>, Refusal>(Refusal::Malformed)
            &&& path.len() > 0 && home is Some && parts(place) == parts(home->0) <==> r == Err::<Seq<char>, Refusal>(
                Refusal::Home,
            )
            &&& path.len() > 0 && !(home is Some && parts(place) == parts(home->0)) && 0 <= d < deny.len() && normalized(
                deny[d],
            ).is_prefix_of(normalized(place)) ==> r is Err && r->Err_0 is Denied && normalized(
                r->Err_0->Denied_0,
            ).is_prefix_of(normalized(place)) && deny.contains(r->Err_0->Denied_0)
            &&& r is Ok ==> r->Ok_0 == place
            &&& canonical is Some ==> place == canonical->0
            &&& canonical is Some && path.len() > 0 && other.len() > 0 ==> verdict(deny, approved, other, canonical, home)
                == r
        }),
{
    let place = judged(path, canonical);
    lemma_holds_first(place, deny);
    if 0 <= d < deny.len() && normalized(deny[d]).is_prefix_of(normalized(place)) {
        assert(within(place, deny[d]));
        assert(deny.contains(deny[first_holding(place, deny) as int]));
    }
}

/// What is approved becomes removable, with all beneath it, unless it is
/// denied or home.
pub proof fn what_is_approved_may_go(
    deny: Seq<Seq<char>>,
    approved: Seq<Seq<char>>,
    root: Seq<char>,
    path: Seq<char>,
    canonical: Option<Seq<char>>,
    home: Option<Seq<char>>,
)
    requires
        path.len() > 0,
        normalized(root).len() > 0,
        normalized(root).is_prefix_of(normalized(judged(path, canonical))),
        !(home is Some && same_path(judged(path, canonical), home->0)),
        forall|i: int|
            0 <= i < deny.len() ==> !normalized(#[trigger] deny[i]).is_prefix_of(normalized(judged(path, canonical))),
    ensures
        verdict(deny, approved_with(approved, root), path, canonical, home) == Ok::<Seq<char>, Refusal>(
            judged(path, canonical),
        ),
{
    let place = judged(path, canonical);
    let all = approved_with(approved, root);
    lemma_holds_first(place, deny);
    if first_holding(place, deny) < deny.len() {
        assert(within(place, deny[first_holding(place, deny) as int]));
    }
    if exists|i: int| 0 <= i < approved.len() && same_path(#[trigger] approved[i], root) {
        let i = choose|i: int| 0 <= i < approved.len() && same_path(#[trigger] approved[i], root);
        assert(covers(all[i], place));
    } else {
        assert(all[approved.len() as int] == root);
        assert(covers(all[approved.len() as int], place));
    }
}

/// Taking the dots out of a path: a name and the step up behind it go
/// together, a `.` goes alone, above the root there is nothing, and all other
/// names stay, in their order.
pub proof fn dots_come_out(ps: Seq<Part>, name: Seq<char>)
    ensures
        normal_parts(ps.push(Part::Name(name))) == normal_parts(ps).push(Part::Name(name)),
        normal_parts(ps.push(Part::Name(name)).push(Part::Parent)) == normal_parts(ps),
        normal_parts(ps.push(Part::Current)) == normal_parts(ps),
        normal_parts(seq![Part::Root].push(Part::Parent)) == seq![Part::Root],
        normal_parts(Seq::<Part>::empty()).len() == 0,
{
    let named = ps.push(Part::Name(name));
    assert(named.drop_last() =~= ps);
    assert(named.push(Part::Parent).drop_last() =~= named);
    assert(ps.push(Part::Current).drop_last() =~= ps);
    assert(normal_parts(ps).push(Part::Name(name)).drop_last() =~= normal_parts(ps));
    let root = seq![Part::Root];
    assert(root.push(Part::Parent).drop_last() =~= root);
    assert(root.drop_last() =~= Seq::<Part>::empty());
    reveal_with_fuel(normal_parts, 3);
    assert(normal_parts(root) =~= root);
}

/// What a refusal says.
pub proof fn what_a_refusal_says(p: Seq<char>)
    ensures
        refusal_text(Refusal::Denied(p)) == "path is within a protected system location: "@ + p,
        refusal_text(Refusal::Outside) == "path is outside the approved cleaning roots"@,
        refusal_text(Refusal::Home) == "refusing to operate on the home directory itself"@,
        refusal_text(Refusal::Malformed) == "path is empty or malformed"@,
{
}

} // verus!
