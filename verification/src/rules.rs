//! The cleaning rules.
//!
//! Rules are TOML documents that hold a list of `[[target]]` tables. Keeping
//! the targets as data means that all that may ever be removed can be read.

use vstd::prelude::*;

use crate::capability::{self, enabled_in, Build, Capability};
use crate::document::{self, document_in, held, sole_key, Node};
use crate::model::{self, Category, SafetyTier, ScanTarget, Scope, TargetView};
use crate::order::{self, ordered, paths_first, reordered};
use crate::paths::{extension_of, last_name, FsPath};
use crate::text::{self, trimmed};

verus! {

/// What can go wrong with a set of rules.
pub enum CoreError {
    /// A file could not be read.
    Io(String),
    /// A text is not TOML, or does not have the shape of a set of rules.
    Toml(toml::de::Error),
    /// A set of rules is not a valid one.
    Rule(String),
}

impl CoreError {
    /// What the error is, in words.
    pub fn message(&self) -> (r: String)
        ensures
            match *self {
                CoreError::Io(why) => r@ == "I/O error: "@ + why@,
                CoreError::Toml(_) => text::begins_with(r@, "failed to parse ruleset: "@),
                CoreError::Rule(why) => r@ == "invalid rule: "@ + why@,
            },
    {
        match self {
            CoreError::Io(why) => {
                let mut r = "I/O error: ".to_owned();
                r.append(why.as_str());
                r
            },
            CoreError::Toml(error) => {
                let mut r = "failed to parse ruleset: ".to_owned();
                let why = document::wording(error);
                let ghost head = r@;
                r.append(why.as_str());
                assert(r@.take(head.len() as int) =~= head);
                r
            },
            CoreError::Rule(why) => {
                let mut r = "invalid rule: ".to_owned();
                r.append(why.as_str());
                r
            },
        }
    }
}

/// What can be wrong with a document that is TOML.
pub enum RuleFault {
    /// It does not have the shape of a set of rules: which target is at
    /// fault, counted from zero, and in which field.
    Shape(usize, String),
    /// It has the shape, and is not a valid set of rules.
    Rule(String),
}

impl RuleFault {
    /// What the fault means.
    pub open spec fn meant(self) -> Fault {
        match self {
            RuleFault::Shape(target, field) => Fault::Shape(target as int, field@),
            RuleFault::Rule(why) => Fault::Rule(why@),
        }
    }

    /// The error that the fault is reported as.
    pub fn into_error(self) -> (r: CoreError)
        ensures
            match self {
                RuleFault::Shape(_, _) => r is Toml,
                RuleFault::Rule(why) => r == CoreError::Rule(why),
            },
    {
        match self {
            RuleFault::Shape(target, field) => CoreError::Toml(
                document::shape_error(shape_words(target, field.as_str()).as_str()),
            ),
            RuleFault::Rule(why) => CoreError::Rule(why),
        }
    }
}

/// Where a document does not have the shape of a set of rules, in words.
pub fn shape_words(target: usize, field: &str) -> (r: String)
    ensures
        r@ == "target "@ + text::digits(target as nat) + ": field `"@ + field@ + "`"@,
{
    let mut r = "target ".to_owned();
    let n = text::decimal(target as u64);
    r.append(n.as_str());
    r.append(": field `");
    r.append(field);
    r.append("`");
    r
}

/// Nothing is in the list or table.
pub open spec fn hollow(node: Node) -> bool {
    match node {
        Node::List(items) => items.len() == 0,
        Node::Table(fields) => fields.dom() == Set::<Seq<char>>::empty(),
        _ => false,
    }
}

/// A value picks the choice `name`: it is that name, or a table with that one
/// key and nothing under it.
pub open spec fn picks(node: Node, name: Seq<char>) -> bool {
    match node {
        Node::Text(s) => s == name,
        Node::Table(fields) => sole_key(fields, name) && hollow(fields[name]),
        _ => false,
    }
}

/// A value picks one choice at most.
pub proof fn a_value_picks_one_choice(node: Node, a: Seq<char>, b: Seq<char>)
    requires
        picks(node, a),
        picks(node, b),
    ensures
        a == b,
{
    if let Node::Table(fields) = node {
        assert(fields.dom().contains(a));
        assert(Set::<Seq<char>>::empty().insert(b).contains(a));
    }
}

fn is_hollow(value: &toml::de::DeValue) -> (r: bool)
    ensures
        r == hollow(held(*value)),
{
    if let Some(items) = document::item_count(value) {
        items == 0
    } else if let Some(keys) = document::key_count(value) {
        keys == 0
    } else {
        false
    }
}

fn does_pick(value: &toml::de::DeValue, name: &str) -> (r: bool)
    ensures
        r == picks(held(*value), name@),
{
    if let Some(s) = document::text_held(value) {
        text::same_text(s, name)
    } else if let Some(keys) = document::key_count(value) {
        let ghost fields = held(*value)->Table_0;
        if keys == 1 {
            match document::lookup(value, name) {
                Some(under) => {
                    proof {
                        let key = choose|key: Seq<char>| sole_key(fields, key);
                        assert(fields.dom().contains(name@));
                        assert(key == name@);
                    }
                    is_hollow(under)
                },
                None => {
                    assert(!fields.dom().contains(name@));
                    assert(!sole_key(fields, name@));
                    false
                },
            }
        } else {
            assert(!sole_key(fields, name@));
            false
        }
    } else {
        false
    }
}

/// The scope that a value picks.
pub open spec fn scope_in(node: Node) -> Option<Scope> {
    if exists|c: Scope| picks(node, #[trigger] c.wire()) {
        Some(choose|c: Scope| picks(node, #[trigger] c.wire()))
    } else {
        None
    }
}

/// The tier that a value picks.
pub open spec fn tier_in(node: Node) -> Option<SafetyTier> {
    if exists|c: SafetyTier| picks(node, #[trigger] c.wire()) {
        Some(choose|c: SafetyTier| picks(node, #[trigger] c.wire()))
    } else {
        None
    }
}

/// The category that a value picks.
pub open spec fn category_in(node: Node) -> Option<Category> {
    if exists|c: Category| picks(node, #[trigger] c.wire()) {
        Some(choose|c: Category| picks(node, #[trigger] c.wire()))
    } else {
        None
    }
}

/// The capability that a value picks.
pub open spec fn capability_in(node: Node) -> Option<Capability> {
    if exists|c: Capability| picks(node, #[trigger] c.wire()) {
        Some(choose|c: Capability| picks(node, #[trigger] c.wire()))
    } else {
        None
    }
}

fn scope_of(value: &toml::de::DeValue) -> (r: Option<Scope>)
    ensures
        r == scope_in(held(*value)),
{
    let all = [Scope::Contents, Scope::Path];
    let mut i: usize = 0;
    while i < 2
        invariant
            i <= 2,
            all@ == seq![Scope::Contents, Scope::Path],
            forall|j: int| 0 <= j < i ==> !picks(held(*value), (#[trigger] all@[j]).wire()),
        decreases 2 - i,
    {
        let c: Scope = all[i];
        if does_pick(value, c.wire_name()) {
            proof {
                let d = scope_in(held(*value))->0;
                a_value_picks_one_choice(held(*value), c.wire(), d.wire());
                model::wire_names_differ(SafetyTier::Safe, SafetyTier::Safe, c, d, Category::Logs, Category::Logs);
            }
            return Some(c);
        }
        i += 1;
    }
    assert(!picks(held(*value), all@[0].wire()) && !picks(held(*value), all@[1].wire()));
    None
}

fn tier_of(value: &toml::de::DeValue) -> (r: Option<SafetyTier>)
    ensures
        r == tier_in(held(*value)),
{
    let all = [SafetyTier::Safe, SafetyTier::Caution, SafetyTier::Expert];
    let mut i: usize = 0;
    while i < 3
        invariant
            i <= 3,
            all@ == seq![SafetyTier::Safe, SafetyTier::Caution, SafetyTier::Expert],
            forall|j: int| 0 <= j < i ==> !picks(held(*value), (#[trigger] all@[j]).wire()),
        decreases 3 - i,
    {
        let c: SafetyTier = all[i];
        if does_pick(value, c.wire_name()) {
            proof {
                let d = tier_in(held(*value))->0;
                a_value_picks_one_choice(held(*value), c.wire(), d.wire());
                model::wire_names_differ(c, d, Scope::Path, Scope::Path, Category::Logs, Category::Logs);
            }
            return Some(c);
        }
        i += 1;
    }
    assert(!picks(held(*value), all@[0].wire()) && !picks(held(*value), all@[1].wire()) && !picks(
        held(*value),
        all@[2].wire(),
    ));
    None
}

/// Every category there is.
pub const CATEGORIES: [Category; 8] = [
    Category::SystemJunk,
    Category::UserCache,
    Category::Logs,
    Category::Trash,
    Category::Downloads,
    Category::Developer,
    Category::Browser,
    Category::Other,
];

proof fn lemma_categories(c: Category)
    ensures
        CATEGORIES@.contains(c),
{
    let i: int = match c {
        Category::SystemJunk => 0,
        Category::UserCache => 1,
        Category::Logs => 2,
        Category::Trash => 3,
        Category::Downloads => 4,
        Category::Developer => 5,
        Category::Browser => 6,
        Category::Other => 7,
    };
    assert(CATEGORIES@[i] == c);
}

fn category_of(value: &toml::de::DeValue) -> (r: Option<Category>)
    ensures
        r == category_in(held(*value)),
{
    let all = CATEGORIES;
    let mut i: usize = 0;
    while i < 8
        invariant
            i <= 8,
            all@ == CATEGORIES@,
            forall|j: int| 0 <= j < i ==> !picks(held(*value), (#[trigger] all@[j]).wire()),
        decreases 8 - i,
    {
        let c: Category = all[i];
        if does_pick(value, c.wire_name()) {
            proof {
                let d = category_in(held(*value))->0;
                a_value_picks_one_choice(held(*value), c.wire(), d.wire());
                model::wire_names_differ(SafetyTier::Safe, SafetyTier::Safe, Scope::Path, Scope::Path, c, d);
            }
            return Some(c);
        }
        i += 1;
    }
    proof {
        assert forall|c: Category| !picks(held(*value), #[trigger] c.wire()) by {
            lemma_categories(c);
        }
    }
    None
}

fn capability_of(value: &toml::de::DeValue) -> (r: Option<Capability>)
    ensures
        r == capability_in(held(*value)),
{
    let all = capability::ALL;
    let mut i: usize = 0;
    while i < 13
        invariant
            i <= 13,
            all@ == capability::ALL@,
            forall|j: int| 0 <= j < i ==> !picks(held(*value), (#[trigger] all@[j]).wire()),
        decreases 13 - i,
    {
        let c: Capability = all[i];
        if does_pick(value, c.wire_name()) {
            proof {
                let d = capability_in(held(*value))->0;
                a_value_picks_one_choice(held(*value), c.wire(), d.wire());
                capability::wire_names_differ(c, d);
            }
            return Some(c);
        }
        i += 1;
    }
    proof {
        assert forall|c: Capability| !picks(held(*value), #[trigger] c.wire()) by {
            capability::all_is_exhaustive(c);
        }
    }
    None
}

/// What a target says under `name`; where a target is written as a list, its
/// fields stand in order.
pub open spec fn field_in(node: Node, name: Seq<char>, position: int) -> Option<Node> {
    match node {
        Node::Table(fields) => if fields.contains_key(name) {
            Some(fields[name])
        } else {
            None
        },
        Node::List(items) => if position < items.len() {
            Some(items[position])
        } else {
            None
        },
        _ => None,
    }
}

/// What is held where there is a value.
pub open spec fn held_in(value: Option<&toml::de::DeValue>) -> Option<Node> {
    match value {
        Some(v) => Some(held(*v)),
        None => None,
    }
}

fn field<'a, 'i>(value: &'a toml::de::DeValue<'i>, name: &str, position: usize) -> (r: Option<&'a toml::de::DeValue<'i>>)
    ensures
        held_in(r) == field_in(held(*value), name@, position as int),
{
    match document::lookup(value, name) {
        Some(under) => Some(under),
        None => document::item_at(value, position),
    }
}

/// A text that has to be there.
pub open spec fn text_in(field: Option<Node>) -> Option<Seq<char>> {
    match field {
        Some(Node::Text(s)) => Some(s),
        _ => None,
    }
}

/// A text that is empty unless it is there.
pub open spec fn text_or_empty(field: Option<Node>) -> Option<Seq<char>> {
    match field {
        None => Some(Seq::empty()),
        Some(Node::Text(s)) => Some(s),
        _ => None,
    }
}

/// A flag that is down unless it is there.
pub open spec fn flag_or_down(field: Option<Node>) -> Option<bool> {
    match field {
        None => Some(false),
        Some(Node::Flag(b)) => Some(b),
        _ => None,
    }
}

/// The scope, which is the contents unless it is there.
pub open spec fn scope_or_contents(field: Option<Node>) -> Option<Scope> {
    match field {
        None => Some(Scope::Contents),
        Some(node) => scope_in(node),
    }
}

/// The tier, which is caution unless it is there.
pub open spec fn tier_or_caution(field: Option<Node>) -> Option<SafetyTier> {
    match field {
        None => Some(SafetyTier::Caution),
        Some(node) => tier_in(node),
    }
}

/// The category, which is the last one unless it is there.
pub open spec fn category_or_other(field: Option<Node>) -> Option<Category> {
    match field {
        None => Some(Category::Other),
        Some(node) => category_in(node),
    }
}

/// The capability required, if any.
pub open spec fn required_in(field: Option<Node>) -> Option<Option<Capability>> {
    match field {
        None => Some(None),
        Some(node) => match capability_in(node) {
            Some(c) => Some(Some(c)),
            None => None,
        },
    }
}

/// The target that a value describes, or the first of its fields that does
/// not have its form.
pub open spec fn decoded(node: Node) -> Result<TargetView, Seq<char>> {
    let id = text_in(field_in(node, "id"@, 0));
    let name = text_in(field_in(node, "name"@, 1));
    let path = text_in(field_in(node, "path"@, 2));
    let scope = scope_or_contents(field_in(node, "scope"@, 3));
    let safety = tier_or_caution(field_in(node, "safety"@, 4));
    let category = category_or_other(field_in(node, "category"@, 5));
    let description = text_or_empty(field_in(node, "description"@, 6));
    let quit = flag_or_down(field_in(node, "requires_app_quit"@, 7));
    let permanent = flag_or_down(field_in(node, "permanent"@, 8));
    let requires_ = required_in(field_in(node, "requires"@, 9));
    if id is None {
        Err("id"@)
    } else if name is None {
        Err("name"@)
    } else if path is None {
        Err("path"@)
    } else if scope is None {
        Err("scope"@)
    } else if safety is None {
        Err("safety"@)
    } else if category is None {
        Err("category"@)
    } else if description is None {
        Err("description"@)
    } else if quit is None {
        Err("requires_app_quit"@)
    } else if permanent is None {
        Err("permanent"@)
    } else if requires_ is None {
        Err("requires"@)
    } else {
        Ok(
            TargetView {
                id: id->0,
                name: name->0,
                path: path->0,
                scope: scope->0,
                safety: safety->0,
                category: category->0,
                description: description->0,
                requires_app_quit: quit->0,
                permanent: permanent->0,
                requires: requires_->0,
            },
        )
    }
}

fn text_at(value: &toml::de::DeValue, name: &str, position: usize) -> (r: Option<String>)
    ensures
        match r {
            Some(s) => text_in(field_in(held(*value), name@, position as int)) == Some(s@),
            None => text_in(field_in(held(*value), name@, position as int)) is None,
        },
{
    match field(value, name, position) {
        Some(v) => match document::text_held(v) {
            Some(s) => Some(s.to_owned()),
            None => None,
        },
        None => None,
    }
}

fn flag_at(value: &toml::de::DeValue, name: &str, position: usize) -> (r: Option<bool>)
    ensures
        r == flag_or_down(field_in(held(*value), name@, position as int)),
{
    match field(value, name, position) {
        Some(v) => document::flag_held(v),
        None => Some(false),
    }
}

/// The target that a value describes.
pub fn decode(value: &toml::de::DeValue) -> (r: Result<ScanTarget, &'static str>)
    ensures
        match r {
            Ok(target) => decoded(held(*value)) == Ok::<TargetView, Seq<char>>(target@),
            Err(field) => decoded(held(*value)) == Err::<TargetView, Seq<char>>(field@),
        },
{
    let id = match text_at(value, "id", 0) {
        Some(s) => s,
        None => {
            return Err("id");
        },
    };
    let name = match text_at(value, "name", 1) {
        Some(s) => s,
        None => {
            return Err("name");
        },
    };
    let path = match text_at(value, "path", 2) {
        Some(s) => s,
        None => {
            return Err("path");
        },
    };
    let scope: Scope = match field(value, "scope", 3) {
        None => Scope::default(),
        Some(v) => match scope_of(v) {
            Some(c) => c,
            None => {
                return Err("scope");
            },
        },
    };
    let safety: SafetyTier = match field(value, "safety", 4) {
        None => SafetyTier::default(),
        Some(v) => match tier_of(v) {
            Some(c) => c,
            None => {
                return Err("safety");
            },
        },
    };
    let category: Category = match field(value, "category", 5) {
        None => Category::default(),
        Some(v) => match category_of(v) {
            Some(c) => c,
            None => {
                return Err("category");
            },
        },
    };
    let description: String = match field(value, "description", 6) {
        None => {
            let s = String::new();
            assert(s@ =~= Seq::<char>::empty());
            s
        },
        Some(v) => match document::text_held(v) {
            Some(s) => s.to_owned(),
            None => {
                return Err("description");
            },
        },
    };
    let requires_app_quit: bool = match flag_at(value, "requires_app_quit", 7) {
        Some(b) => b,
        None => {
            return Err("requires_app_quit");
        },
    };
    let permanent: bool = match flag_at(value, "permanent", 8) {
        Some(b) => b,
        None => {
            return Err("permanent");
        },
    };
    let required: Option<Capability> = match field(value, "requires", 9) {
        None => None,
        Some(v) => match capability_of(v) {
            Some(c) => Some(c),
            None => {
                return Err("requires");
            },
        },
    };
    Ok(
        ScanTarget {
            id,
            name,
            path,
            scope,
            safety,
            category,
            description,
            requires_app_quit,
            permanent,
            requires: required,
        },
    )
}

/// What is wrong with a document that is TOML.
pub enum Fault {
    Shape(int, Seq<char>),
    Rule(Seq<char>),
}

/// The targets that a list of values describes, or the first at fault and its
/// field.
pub open spec fn all_decoded(nodes: Seq<Node>) -> Result<Seq<TargetView>, Fault>
    decreases nodes.len(),
{
    if nodes.len() == 0 {
        Ok(Seq::empty())
    } else {
        match all_decoded(nodes.drop_last()) {
            Err(fault) => Err(fault),
            Ok(before) => match decoded(nodes.last()) {
                Err(field) => Err(Fault::Shape(nodes.len() - 1, field)),
                Ok(target) => Ok(before.push(target)),
            },
        }
    }
}

/// The targets that a document lists.
pub open spec fn listed(document: vstd::map::Map<Seq<char>, Node>) -> Result<Seq<TargetView>, Fault> {
    if !document.contains_key("target"@) {
        Ok(Seq::empty())
    } else {
        match document["target"@] {
            Node::List(nodes) => all_decoded(nodes),
            _ => Err(Fault::Shape(0, "target"@)),
        }
    }
}

/// The keys of a table with what is under them; none of any other value.
pub open spec fn fields_of(node: Node) -> vstd::map::Map<Seq<char>, Node> {
    match node {
        Node::Table(fields) => fields,
        _ => vstd::map::Map::empty(),
    }
}

/// The ids of the targets.
pub open spec fn ids_of(targets: Seq<TargetView>) -> Seq<Seq<char>> {
    targets.map_values(|t: TargetView| t.id)
}

/// What is wrong with a list of ids, going from the front: one that is blank,
/// or one that occurred before.
pub open spec fn id_fault(ids: Seq<Seq<char>>) -> Option<Seq<char>>
    decreases ids.len(),
{
    if ids.len() == 0 {
        None
    } else if id_fault(ids.drop_last()) is Some {
        id_fault(ids.drop_last())
    } else if trimmed(ids.last()).len() == 0 {
        Some("a target has an empty id"@)
    } else if ids.drop_last().contains(ids.last()) {
        Some("duplicate target id: "@ + ids.last())
    } else {
        None
    }
}

/// The target can be acted on in the build.
pub open spec fn can_act(build: Build) -> spec_fn(TargetView) -> bool {
    |t: TargetView| t.requires is None || enabled_in(build).contains(t.requires->0)
}

/// The rules that a document holds, for a build.
pub open spec fn ruled(document: vstd::map::Map<Seq<char>, Node>, build: Build) -> Result<Seq<TargetView>, Fault> {
    match listed(document) {
        Err(fault) => Err(fault),
        Ok(targets) => match id_fault(ids_of(targets)) {
            Some(why) => Err(Fault::Rule(why)),
            None => Ok(targets.filter(can_act(build))),
        },
    }
}

/// What a list of targets says.
pub open spec fn targets_view(targets: Seq<ScanTarget>) -> Seq<TargetView> {
    targets.map_values(|t: ScanTarget| t@)
}

/// The outcome of reading a document.
pub open spec fn tells_document(r: Result<RuleSet, RuleFault>, rules: Result<Seq<TargetView>, Fault>) -> bool {
    match r {
        Ok(set) => rules == Ok::<Seq<TargetView>, Fault>(set@),
        Err(fault) => rules == Err::<Seq<TargetView>, Fault>(fault.meant()),
    }
}

/// The outcome of reading a text that is TOML. A wrong shape is an error of
/// the text, as one in its syntax is.
pub open spec fn tells_rules(r: Result<RuleSet, CoreError>, rules: Result<Seq<TargetView>, Fault>) -> bool {
    match rules {
        Ok(targets) => r is Ok && r->Ok_0@ == targets,
        Err(Fault::Shape(_, _)) => r is Err && r->Err_0 is Toml,
        Err(Fault::Rule(why)) => r is Err && r->Err_0 is Rule && r->Err_0->Rule_0@ == why,
    }
}

/// The outcome of reading a text.
pub open spec fn tells_text(r: Result<RuleSet, CoreError>, text: Seq<char>, build: Build) -> bool {
    match document_in(text) {
        None => r is Err && r->Err_0 is Toml,
        Some(document) => tells_rules(r, ruled(document, build)),
    }
}

/// The targets that a value lists; nothing where it is no list.
fn decode_all(value: &toml::de::DeValue) -> (r: Option<Result<Vec<ScanTarget>, RuleFault>>)
    ensures
        match r {
            None => !(held(*value) is List),
            Some(Ok(targets)) => held(*value) is List && all_decoded(held(*value)->List_0) == Ok::<Seq<TargetView>, Fault>(
                targets_view(targets@),
            ),
            Some(Err(fault)) => held(*value) is List && all_decoded(held(*value)->List_0) == Err::<Seq<TargetView>, Fault>(
                fault.meant(),
            ),
        },
{
    let count: usize = match document::item_count(value) {
        Some(count) => count,
        None => {
            return None;
        },
    };
    let mut targets: Vec<ScanTarget> = Vec::new();
    let mut i: usize = 0;
    let ghost nodes = held(*value)->List_0;
    proof {
        assert(nodes.take(0).len() == 0);
        assert(targets_view(targets@) =~= Seq::<TargetView>::empty());
    }
    while i < count
        invariant
            i <= count == nodes.len(),
            held(*value) == Node::List(nodes),
            all_decoded(nodes.take(i as int)) == Ok::<Seq<TargetView>, Fault>(targets_view(targets@)),
        decreases count - i,
    {
        assert(nodes.take(i + 1).drop_last() =~= nodes.take(i as int));
        if let Some(item) = document::item_at(value, i) {
            match decode(item) {
                Ok(target) => {
                    let ghost before = targets@;
                    targets.push(target);
                    assert(targets_view(targets@) =~= targets_view(before).push(target@));
                },
                Err(field) => {
                    proof {
                        lemma_fault_stays(nodes, i + 1);
                    }
                    return Some(Err(RuleFault::Shape(i, field.to_owned())));
                },
            }
        }
        i += 1;
    }
    assert(nodes.take(i as int) =~= nodes);
    Some(Ok(targets))
}

proof fn lemma_fault_stays(nodes: Seq<Node>, n: int)
    requires
        0 <= n <= nodes.len(),
        all_decoded(nodes.take(n)) is Err,
    ensures
        all_decoded(nodes) == all_decoded(nodes.take(n)),
    decreases nodes.len(),
{
    if n == nodes.len() {
        assert(nodes.take(n) =~= nodes);
    } else {
        assert(nodes.drop_last().take(n) =~= nodes.take(n));
        lemma_fault_stays(nodes.drop_last(), n);
    }
}

proof fn lemma_id_fault_stays(ids: Seq<Seq<char>>, n: int)
    requires
        0 <= n <= ids.len(),
        id_fault(ids.take(n)) is Some,
    ensures
        id_fault(ids) == id_fault(ids.take(n)),
    decreases ids.len(),
{
    if n == ids.len() {
        assert(ids.take(n) =~= ids);
    } else {
        assert(ids.drop_last().take(n) =~= ids.take(n));
        lemma_id_fault_stays(ids.drop_last(), n);
    }
}

/// A set of rules.
pub struct RuleSet {
    pub targets: Vec<ScanTarget>,
}

impl View for RuleSet {
    type V = Seq<TargetView>;

    open spec fn view(&self) -> Seq<TargetView> {
        targets_view(self.targets@)
    }
}

impl Clone for RuleSet {
    fn clone(&self) -> (r: Self)
        ensures
            r@ == self@,
    {
        let targets = self.targets.clone();
        assert(targets@ =~= self.targets@);
        RuleSet { targets }
    }
}

impl Default for RuleSet {
    fn default() -> (r: Self)
        ensures
            r@ == Seq::<TargetView>::empty(),
    {
        let r = RuleSet { targets: Vec::new() };
        assert(r@ =~= Seq::<TargetView>::empty());
        r
    }
}

impl RuleSet {
    /// Reads a set of rules from a TOML text.
    ///
    /// Targets that need a capability the build lacks are dropped here, so a
    /// target that is left is one that may be acted on. The ids are checked
    /// before that: one that occurs twice is an error even where one of the
    /// two would be dropped.
    pub fn from_toml(text: &str, build: Build) -> (r: Result<Self, CoreError>)
        ensures
            tells_text(r, text@, build),
    {
        if let Err(error) = document::decode_unread(text) {
            return Err(CoreError::Toml(error));
        }
        match document::parse(text) {
            Err(error) => Err(CoreError::Toml(error)),
            Ok(table) => match RuleSet::from_table(&table, build) {
                Err(fault) => Err(fault.into_error()),
                Ok(set) => Ok(set),
            },
        }
    }

    /// Reads a set of rules from a document, which is a table: any other value
    /// holds no targets either.
    pub fn from_table(table: &toml::de::DeValue, build: Build) -> (r: Result<Self, RuleFault>)
        ensures
            tells_document(r, ruled(fields_of(held(*table)), build)),
    {
        let mut set = RuleSet::default();
        if let Some(value) = document::lookup(table, "target") {
            match decode_all(value) {
                None => {
                    return Err(RuleFault::Shape(0, "target".to_owned()));
                },
                Some(Err(fault)) => {
                    return Err(fault);
                },
                Some(Ok(targets)) => {
                    set = RuleSet { targets };
                },
            }
        }
        assert(listed(fields_of(held(*table))) == Ok::<Seq<TargetView>, Fault>(set@));
        match set.id_trouble() {
            Some(why) => Err(RuleFault::Rule(why)),
            None => Ok(set.for_build(build)),
        }
    }

    /// The targets that the build can act on.
    pub fn for_build(self, build: Build) -> (r: RuleSet)
        ensures
            r@ == self@.filter(can_act(build)),
    {
        let all = self.targets;
        let mut targets: Vec<ScanTarget> = Vec::new();
        let mut i: usize = 0;
        let ghost whole = targets_view(all@);
        reveal(Seq::filter);
        assert(targets_view(targets@) =~= whole.take(0).filter(can_act(build)));
        while i < all.len()
            invariant
                i <= all@.len(),
                whole == targets_view(all@),
                targets_view(targets@) == whole.take(i as int).filter(can_act(build)),
            decreases all@.len() - i,
        {
            let target: &ScanTarget = &all[i];
            let kept: bool = match target.requires {
                None => true,
                Some(needed) => capability::has(build, needed),
            };
            let ghost before = targets@;
            proof {
                reveal(Seq::filter);
                assert(whole.take(i + 1).drop_last() =~= whole.take(i as int));
                assert(whole.take(i + 1).last() == target@);
            }
            if kept {
                targets.push(target.clone());
                assert(targets_view(targets@) =~= targets_view(before).push(target@));
            }
            i += 1;
        }
        assert(whole.take(i as int) =~= whole);
        RuleSet { targets }
    }

    /// Checks that the ids are unique and not blank.
    pub fn validate(&self) -> (r: Result<(), CoreError>)
        ensures
            match r {
                Ok(()) => id_fault(ids_of(self@)) is None,
                Err(CoreError::Rule(why)) => id_fault(ids_of(self@)) == Some(why@),
                Err(_) => false,
            },
    {
        match self.id_trouble() {
            Some(why) => Err(CoreError::Rule(why)),
            None => Ok(()),
        }
    }

    /// What is wrong with the ids: one that is blank, or one that occurs twice.
    fn id_trouble(&self) -> (r: Option<String>)
        ensures
            match r {
                None => id_fault(ids_of(self@)) is None,
                Some(why) => id_fault(ids_of(self@)) == Some(why@),
            },
    {
        let ghost ids = ids_of(self@);
        let mut i: usize = 0;
        assert(ids.take(0).len() == 0);
        while i < self.targets.len()
            invariant
                i <= self.targets@.len(),
                ids == ids_of(self@),
                id_fault(ids.take(i as int)) is None,
            decreases self.targets@.len() - i,
        {
            let id: &String = &self.targets[i].id;
            proof {
                assert(ids.take(i + 1).drop_last() =~= ids.take(i as int));
                assert(ids.take(i + 1).last() == id@);
            }
            let bare = text::chars_of(text::trim(id.as_str()).as_str());
            if bare.len() == 0 {
                proof {
                    lemma_id_fault_stays(ids, i + 1);
                }
                return Some("a target has an empty id".to_owned());
            }
            if self.has_id_before(id.as_str(), i) {
                let mut why = "duplicate target id: ".to_owned();
                why.append(id.as_str());
                proof {
                    lemma_id_fault_stays(ids, i + 1);
                }
                return Some(why);
            }
            i += 1;
        }
        assert(ids.take(i as int) =~= ids);
        None
    }

    fn has_id_before(&self, id: &str, n: usize) -> (r: bool)
        requires
            n <= self.targets@.len(),
        ensures
            r == ids_of(self@).take(n as int).contains(id@),
    {
        let ghost ids = ids_of(self@).take(n as int);
        let mut i: usize = 0;
        while i < n
            invariant
                i <= n <= self.targets@.len(),
                ids == ids_of(self@).take(n as int),
                forall|j: int| 0 <= j < i ==> #[trigger] ids[j] != id@,
            decreases n - i,
        {
            if text::same_text(self.targets[i].id.as_str(), id) {
                assert(ids[i as int] == id@);
                return true;
            }
            i += 1;
        }
        false
    }

    /// Adds the targets of another set behind these.
    pub fn extend(&mut self, other: RuleSet)
        ensures
            final(self)@ == old(self)@ + other@,
    {
        let ghost before = self@;
        let mut more = other.targets;
        self.targets.append(&mut more);
        assert(self@ =~= before + other@);
    }
}

/// A file is one of rules by its extension.
pub open spec fn is_rule_file(path: FsPath) -> bool {
    last_name(path@) is Some && extension_of(last_name(path@)->0) == Some("toml"@)
}

/// `files` are the rule files among `entries`, in the order of their names.
pub open spec fn rule_files_of(entries: Seq<FsPath>, files: Seq<FsPath>) -> bool {
    let kept = entries.filter(|p: FsPath| is_rule_file(p));
    exists|by_name: Seq<usize>|
        ordered(by_name, 0, kept.len() as int, paths_first(kept.map_values(|p: FsPath| p@))) && files
            == #[trigger] reordered(kept, by_name)
}

/// The rule files in a directory, in the order of their names.
pub fn rule_files(entries: &Vec<FsPath>) -> (r: Vec<FsPath>)
    ensures
        rule_files_of(entries@, r@),
{
    let ghost wanted = |p: FsPath| is_rule_file(p);
    let mut kept: Vec<FsPath> = Vec::new();
    let mut i: usize = 0;
    reveal(Seq::filter);
    assert(kept@ =~= entries@.take(0).filter(wanted));
    while i < entries.len()
        invariant
            i <= entries@.len(),
            wanted == (|p: FsPath| is_rule_file(p)),
            kept@ == entries@.take(i as int).filter(wanted),
        decreases entries@.len() - i,
    {
        let path: &FsPath = &entries[i];
        let is_rules: bool = match path.extension() {
            Some(extension) => text::same_text(extension.as_str(), "toml"),
            None => false,
        };
        proof {
            reveal(Seq::filter);
            assert(entries@.take(i + 1).drop_last() =~= entries@.take(i as int));
        }
        if is_rules {
            kept.push(path.clone());
        }
        i += 1;
    }
    assert(entries@.take(i as int) =~= entries@);
    let by_name = order::order_by_path(&kept);
    proof {
        order::lemma_paths_first_total(kept@.map_values(|p: FsPath| p@));
        order::lemma_ordered_distinct(by_name@, kept@.len() as int, paths_first(kept@.map_values(|p: FsPath| p@)));
    }
    order::reorder(kept, &by_name)
}

/// How far reading a row of files comes.
pub enum Loading {
    Rules(Seq<TargetView>),
    Unreadable(Seq<char>),
    NotToml,
    Wrong(Fault),
}

/// What was read from a file: its text, or why there is none.
pub open spec fn told(answer: Result<String, String>) -> Result<Seq<char>, Seq<char>> {
    match answer {
        Ok(text) => Ok(text@),
        Err(why) => Err(why@),
    }
}

/// The rules of a row of files, one behind the other, as far as the first
/// that does not hold any.
pub open spec fn loaded(answers: Seq<Result<String, String>>, build: Build) -> Loading
    decreases answers.len(),
{
    if answers.len() == 0 {
        Loading::Rules(Seq::empty())
    } else {
        match loaded(answers.drop_last(), build) {
            Loading::Rules(before) => match told(answers.last()) {
                Err(why) => Loading::Unreadable(why),
                Ok(text) => match document_in(text) {
                    None => Loading::NotToml,
                    Some(document) => match ruled(document, build) {
                        Err(fault) => Loading::Wrong(fault),
                        Ok(targets) => Loading::Rules(before + targets),
                    },
                },
            },
            stopped => stopped,
        }
    }
}

/// The rules of a row of files, with the ids checked over all of them.
pub open spec fn merged(answers: Seq<Result<String, String>>, build: Build) -> Loading {
    match loaded(answers, build) {
        Loading::Rules(targets) => match id_fault(ids_of(targets)) {
            Some(why) => Loading::Wrong(Fault::Rule(why)),
            None => Loading::Rules(targets),
        },
        stopped => stopped,
    }
}

/// The outcome of reading a row of files.
pub open spec fn tells_loading(r: Result<RuleSet, CoreError>, loading: Loading) -> bool {
    match loading {
        Loading::Rules(targets) => r is Ok && r->Ok_0@ == targets,
        Loading::Unreadable(why) => r is Err && r->Err_0 is Io && r->Err_0->Io_0@ == why,
        Loading::NotToml => r is Err && r->Err_0 is Toml,
        Loading::Wrong(fault) => tells_rules(r, Err(fault)),
    }
}

/// `answers` are what `read` can say of the files, asked in turn until one
/// does not hold rules.
pub open spec fn asked_in_turn<R: Fn(&FsPath) -> Result<String, String>>(
    read: R,
    files: Seq<FsPath>,
    build: Build,
    answers: Seq<Result<String, String>>,
) -> bool {
    &&& answers.len() <= files.len()
    &&& answers.len() == files.len() || !(loaded(answers, build) is Rules)
    &&& forall|i: int| 0 <= i < answers.len() ==> call_ensures(read, (&files[i],), #[trigger] answers[i])
}

impl RuleSet {
    /// Loads and merges every rule file of a directory, in the order of their
    /// names. `entries` is what the directory lists, or why it cannot be read.
    pub fn from_dir<R: Fn(&FsPath) -> Result<String, String>>(
        entries: Result<Vec<FsPath>, String>,
        build: Build,
        read: &R,
    ) -> (r: Result<Self, CoreError>)
        requires
            forall|p: &FsPath| call_requires(*read, (p,)),
        ensures
            match entries {
                Err(why) => r is Err && r->Err_0 is Io && r->Err_0->Io_0@ == why@,
                Ok(listed) => exists|files: Seq<FsPath>, answers: Seq<Result<String, String>>|
                    rule_files_of(listed@, files) && #[trigger] asked_in_turn(*read, files, build, answers)
                        && tells_loading(r, merged(answers, build)),
            },
    {
        let listed = match entries {
            Err(why) => {
                return Err(CoreError::Io(why));
            },
            Ok(listed) => listed,
        };
        let files = rule_files(&listed);
        let mut all = RuleSet::default();
        let ghost mut answers: Seq<Result<String, String>> = Seq::empty();
        let mut i: usize = 0;
        while i < files.len()
            invariant
                forall|p: &FsPath| call_requires(*read, (p,)),
                entries == Ok::<Vec<FsPath>, String>(listed),
                rule_files_of(listed@, files@),
                i <= files@.len(),
                answers.len() == i,
                loaded(answers, build) == Loading::Rules(all@),
                forall|k: int| 0 <= k < i ==> call_ensures(*read, (&files@[k],), #[trigger] answers[k]),
            decreases files@.len() - i,
        {
            let answer = read(&files[i]);
            proof {
                let before = answers;
                answers = answers.push(answer);
                assert(answers.drop_last() =~= before);
            }
            match answer {
                Err(why) => {
                    assert(asked_in_turn(*read, files@, build, answers));
                    return Err(CoreError::Io(why));
                },
                Ok(text) => match RuleSet::from_toml(text.as_str(), build) {
                    Err(error) => {
                        assert(asked_in_turn(*read, files@, build, answers));
                        return Err(error);
                    },
                    Ok(set) => {
                        all.extend(set);
                    },
                },
            }
            i += 1;
        }
        assert(asked_in_turn(*read, files@, build, answers));
        match all.validate() {
            Err(error) => Err(error),
            Ok(()) => Ok(all),
        }
    }
}

/// The outcome of reading two texts, the targets of the second behind those
/// of the first. Where both are at fault, the first is reported.
pub open spec fn tells_merged(r: Result<RuleSet, CoreError>, first: Seq<char>, second: Seq<char>, build: Build) -> bool {
    match r {
        Ok(set) => exists|a: RuleSet, b: RuleSet| #[trigger]
            tells_text(Ok(a), first, build) && #[trigger] tells_text(Ok(b), second, build) && set@ == a@ + b@,
        Err(error) => tells_text(Err(error), first, build) || (tells_text(Err(error), second, build) && exists|a: RuleSet|
            #[trigger] tells_text(Ok(a), first, build)),
    }
}

/// The set of rules that two texts make together.
pub fn merge_rules(first: &str, second: &str, build: Build) -> (r: Result<RuleSet, CoreError>)
    ensures
        tells_merged(r, first@, second@, build),
{
    match RuleSet::from_toml(first, build) {
        Err(error) => Err(error),
        Ok(mut set) => match RuleSet::from_toml(second, build) {
            Err(error) => Err(error),
            Ok(more) => {
                let ghost head = set;
                set.extend(more);
                assert(tells_text(Ok(head), first@, build) && tells_text(Ok(more), second@, build));
                Ok(set)
            },
        },
    }
}

/// In a set of rules that was accepted, no id is blank and no two targets
/// share one.
pub proof fn accepted_ids_are_unique(document: vstd::map::Map<Seq<char>, Node>, build: Build)
    requires
        ruled(document, build) is Ok,
    ensures
        ids_of(ruled(document, build)->Ok_0).no_duplicates(),
        forall|i: int|
            0 <= i < ruled(document, build)->Ok_0.len() ==> trimmed((#[trigger] ruled(document, build)->Ok_0[i]).id).len()
                > 0,
{
    let all = listed(document)->Ok_0;
    lemma_ids_sound(ids_of(all));
    assert forall|i: int| 0 <= i < all.len() implies trimmed((#[trigger] all[i]).id).len() > 0 by {
        assert(ids_of(all)[i] == all[i].id);
    }
    lemma_filtered_ids(all, build);
}

proof fn lemma_ids_sound(ids: Seq<Seq<char>>)
    requires
        id_fault(ids) is None,
    ensures
        ids.no_duplicates(),
        forall|i: int| 0 <= i < ids.len() ==> trimmed(#[trigger] ids[i]).len() > 0,
    decreases ids.len(),
{
    if ids.len() > 0 {
        let front = ids.drop_last();
        lemma_ids_sound(front);
        assert forall|i: int| 0 <= i < ids.len() implies trimmed(#[trigger] ids[i]).len() > 0 by {
            if i < front.len() {
                assert(ids[i] == front[i]);
            }
        }
        assert forall|i: int, j: int| 0 <= i < j < ids.len() implies ids[i] != ids[j] by {
            assert(ids[i] == front[i]);
            if j < front.len() {
                assert(ids[j] == front[j]);
            } else {
                assert(front.contains(front[i]));
            }
        }
    }
}

proof fn lemma_filtered_ids(all: Seq<TargetView>, build: Build)
    requires
        ids_of(all).no_duplicates(),
        forall|i: int| 0 <= i < all.len() ==> trimmed((#[trigger] all[i]).id).len() > 0,
    ensures
        ids_of(all.filter(can_act(build))).no_duplicates(),
        forall|i: int|
            0 <= i < all.filter(can_act(build)).len() ==> trimmed((#[trigger] all.filter(can_act(build))[i]).id).len()
                > 0,
    decreases all.len(),
{
    reveal(Seq::filter);
    if all.len() > 0 {
        let front = all.drop_last();
        let kept = front.filter(can_act(build));
        assert(ids_of(front) =~= ids_of(all).drop_last());
        assert forall|i: int| 0 <= i < front.len() implies trimmed((#[trigger] front[i]).id).len() > 0 by {
            assert(front[i] == all[i]);
        }
        lemma_filtered_ids(front, build);
        let now = all.filter(can_act(build));
        if can_act(build)(all.last()) {
            assert(now == kept.push(all.last()));
            assert forall|i: int| 0 <= i < kept.len() implies (#[trigger] kept[i]).id != all.last().id by {
                assert(kept.contains(kept[i]));
                front.lemma_filter_contains_rev(can_act(build), kept[i]);
                let k = choose|k: int| 0 <= k < front.len() && front[k] == kept[i];
                assert(ids_of(all)[k] == kept[i].id);
                assert(ids_of(all)[all.len() - 1] == all.last().id);
            }
            let (x, y) = (ids_of(now), ids_of(kept));
            assert forall|i: int, j: int| 0 <= i < j < x.len() implies x[i] != x[j] by {
                assert(x[i] == kept[i].id && kept[i].id == y[i]);
                if j < kept.len() {
                    assert(x[j] == kept[j].id && kept[j].id == y[j]);
                }
            }
        }
    }
}

/// What is wrong with a set of rules is wrong with it in every build.
pub proof fn faults_do_not_depend_on_the_build(document: vstd::map::Map<Seq<char>, Node>, a: Build, b: Build)
    requires
        ruled(document, a) is Err,
    ensures
        ruled(document, b) == ruled(document, a),
{
}

/// A target that is left is one that the build can act on, and one that the
/// build can act on is left.
pub proof fn what_is_left_can_be_acted_on(document: vstd::map::Map<Seq<char>, Node>, build: Build, target: TargetView)
    requires
        ruled(document, build) is Ok,
    ensures
        ruled(document, build)->Ok_0.contains(target) <==> listed(document)->Ok_0.contains(target) && (
        target.requires is None || enabled_in(build).contains(target.requires->0)),
{
    let all = listed(document)->Ok_0;
    let kept = all.filter(can_act(build));
    if kept.contains(target) {
        let i = choose|i: int| 0 <= i < kept.len() && kept[i] == target;
        all.lemma_filter_contains_rev(can_act(build), target);
        all.lemma_filter_pred(can_act(build), i);
    }
    if all.contains(target) && can_act(build)(target) {
        let i = choose|i: int| 0 <= i < all.len() && all[i] == target;
        all.lemma_filter_contains(can_act(build), i);
    }
}

/// What a table says of a target is what its fields say, by their names; and
/// what it does not say is the usual: the contents of the path, with caution,
/// of no particular category, without a description, with no need to quit
/// the app, to the Trash, and in any build.
pub proof fn fields_say_what_they_are_called(fields: vstd::map::Map<Seq<char>, Node>, t: TargetView)
    requires
        decoded(Node::Table(fields)) == Ok::<TargetView, Seq<char>>(t),
    ensures
        fields.contains_key("id"@) && fields["id"@] == Node::Text(t.id),
        fields.contains_key("name"@) && fields["name"@] == Node::Text(t.name),
        fields.contains_key("path"@) && fields["path"@] == Node::Text(t.path),
        fields.contains_key("description"@) ==> fields["description"@] == Node::Text(t.description),
        !fields.contains_key("description"@) ==> t.description.len() == 0,
        fields.contains_key("requires_app_quit"@) ==> fields["requires_app_quit"@] == Node::Flag(t.requires_app_quit),
        !fields.contains_key("requires_app_quit"@) ==> !t.requires_app_quit,
        fields.contains_key("permanent"@) ==> fields["permanent"@] == Node::Flag(t.permanent),
        !fields.contains_key("permanent"@) ==> !t.permanent,
        !fields.contains_key("scope"@) ==> t.scope == Scope::Contents,
        !fields.contains_key("safety"@) ==> t.safety == SafetyTier::Caution,
        !fields.contains_key("category"@) ==> t.category == Category::Other,
        !fields.contains_key("requires"@) ==> t.requires is None,
        fields.contains_key("requires"@) ==> t.requires is Some,
        fields.contains_key("scope"@) ==> picks(fields["scope"@], t.scope.wire()),
        fields.contains_key("safety"@) ==> picks(fields["safety"@], t.safety.wire()),
        fields.contains_key("category"@) ==> picks(fields["category"@], t.category.wire()),
        fields.contains_key("requires"@) ==> picks(fields["requires"@], t.requires->0.wire()),
{
}

/// What the choices are called.
pub proof fn what_choices_are_called()
    ensures
        Scope::Contents.wire() == "contents"@ && Scope::Path.wire() == "path"@,
        SafetyTier::Safe.wire() == "safe"@ && SafetyTier::Caution.wire() == "caution"@ && SafetyTier::Expert.wire()
            == "expert"@,
        Category::SystemJunk.wire() == "system-junk"@ && Category::UserCache.wire() == "user-cache"@
            && Category::Logs.wire() == "logs"@ && Category::Trash.wire() == "trash"@,
        Category::Downloads.wire() == "downloads"@ && Category::Developer.wire() == "developer"@
            && Category::Browser.wire() == "browser"@ && Category::Other.wire() == "other"@,
        Capability::SystemCaches.wire() == "system-caches"@ && Capability::SimulatorRuntimes.wire()
            == "simulator-runtimes"@ && Capability::TrashContents.wire() == "trash-contents"@
            && Capability::AdminEscalation.wire() == "admin-escalation"@,
        forall|s: Seq<char>, name: Seq<char>| #[trigger] picks(Node::Text(s), name) <==> s == name,
{
}

/// A target without an id, a name or a path is none, and one whose fields
/// are in order is one.
pub proof fn what_a_target_needs(fields: vstd::map::Map<Seq<char>, Node>)
    ensures
        !(fields.contains_key("id"@) && fields["id"@] is Text) ==> decoded(Node::Table(fields)) == Err::<
            TargetView,
            Seq<char>,
        >("id"@),
        !(fields.contains_key("name"@) && fields["name"@] is Text) || !(fields.contains_key("path"@) && fields["path"@] is Text)
            ==> decoded(Node::Table(fields)) is Err,
        fields.contains_key("id"@) && fields["id"@] is Text && fields.contains_key("name"@) && fields["name"@] is Text
            && fields.contains_key("path"@) && fields["path"@] is Text && !fields.contains_key("scope"@)
            && !fields.contains_key("safety"@) && !fields.contains_key("category"@) && !fields.contains_key(
            "description"@,
        ) && !fields.contains_key("requires_app_quit"@) && !fields.contains_key("permanent"@) && !fields.contains_key(
            "requires"@,
        ) ==> decoded(Node::Table(fields)) is Ok,
        decoded(Node::Unread) is Err,
{
}

/// Each target of a list is read, in the order of the list, and one that
/// cannot be read spoils the list.
pub proof fn each_target_is_read(nodes: Seq<Node>, k: int)
    requires
        0 <= k < nodes.len(),
    ensures
        all_decoded(nodes) matches Ok(targets) ==> targets.len() == nodes.len() && decoded(nodes[k]) == Ok::<
            TargetView,
            Seq<char>,
        >(targets[k]),
        decoded(nodes[k]) is Err ==> all_decoded(nodes) is Err,
    decreases nodes.len(),
{
    let front = nodes.drop_last();
    if k < front.len() {
        assert(front[k] == nodes[k]);
        each_target_is_read(front, k);
    }
    lemma_as_many(nodes);
    lemma_as_many(front);
}

proof fn lemma_as_many(nodes: Seq<Node>)
    ensures
        all_decoded(nodes) matches Ok(targets) ==> targets.len() == nodes.len(),
    decreases nodes.len(),
{
    if nodes.len() > 0 {
        lemma_as_many(nodes.drop_last());
    }
}

/// Ids are at fault exactly where one is blank or one occurs twice.
pub proof fn what_is_wrong_with_ids(ids: Seq<Seq<char>>, i: int, j: int)
    ensures
        0 <= i < j < ids.len() && ids[i] == ids[j] ==> id_fault(ids) is Some,
        0 <= i < ids.len() && trimmed(ids[i]).len() == 0 ==> id_fault(ids) is Some,
        (forall|a: int| 0 <= a < ids.len() ==> trimmed(#[trigger] ids[a]).len() > 0) && ids.no_duplicates() ==> id_fault(
            ids,
        ) is None,
    decreases ids.len(),
{
    if ids.len() > 0 {
        let front = ids.drop_last();
        let n = front.len() as int;
        what_is_wrong_with_ids(front, i, j);
        if 0 <= i < n {
            assert(front[i] == ids[i]);
        }
        if 0 <= i < j < ids.len() && ids[i] == ids[j] {
            if j < n {
                assert(front[j] == ids[j]);
            } else {
                assert(front[i] == ids.last());
                assert(front.contains(ids.last()));
            }
        }
        if (forall|a: int| 0 <= a < ids.len() ==> trimmed(#[trigger] ids[a]).len() > 0) && ids.no_duplicates() {
            assert forall|a: int| 0 <= a < front.len() implies trimmed(#[trigger] front[a]).len() > 0 by {
                assert(front[a] == ids[a]);
            }
            assert(front.no_duplicates());
            assert(ids[n] == ids.last());
            if front.contains(ids.last()) {
                let a = choose|a: int| 0 <= a < front.len() && front[a] == ids.last();
                assert(ids[a] == ids[n]);
            }
        }
    }
}

/// A rule file is one called `….toml`.
pub proof fn what_a_rule_file_is(path: FsPath, dir: Seq<char>, stem: Seq<char>, name: Seq<char>)
    requires
        crate::paths::is_name(name),
        path@ == crate::paths::joined(dir, name),
    ensures
        stem.len() > 0 && name == stem + ".toml"@ ==> is_rule_file(path),
        is_rule_file(path) ==> text::finishes_with(name, ".toml"@),
{
    crate::paths::lemma_parent_of_child(dir, name);
    reveal_strlit(".toml");
    reveal_strlit("toml");
    assert(forall|i: int| 0 <= i < "toml"@.len() ==> "toml"@[i] != '.');
    crate::paths::the_extension_is_behind_the_last_dot(stem, "toml"@);
    assert(stem + ".toml"@ =~= stem.push('.') + "toml"@);
    if is_rule_file(path) {
        crate::paths::an_extension_makes_up_the_name(name);
        assert(name.skip(name.len() - 5) =~= ".toml"@);
    }
}

/// Rule files are read one after the other, and the targets of each come
/// behind those before it. The first that cannot be read, or is wrong, is what
/// is told, whatever comes after it.
pub proof fn rule_files_are_read_in_turn(
    answers: Seq<Result<String, String>>,
    text: String,
    why: String,
    build: Build,
    next: Result<String, String>,
)
    ensures
        loaded(Seq::empty(), build) == Loading::Rules(Seq::empty()),
        !(loaded(answers, build) is Rules) ==> loaded(answers.push(next), build) == loaded(answers, build),
        loaded(answers, build) is Rules ==> loaded(answers.push(Err(why)), build) == Loading::Unreadable(why@),
        loaded(answers, build) is Rules && document_in(text@) is None ==> loaded(answers.push(Ok(text)), build)
            == Loading::NotToml,
        loaded(answers, build) is Rules && document_in(text@) is Some && ruled(document_in(text@)->0, build) is Err
            ==> loaded(answers.push(Ok(text)), build) == Loading::Wrong(ruled(document_in(text@)->0, build)->Err_0),
        loaded(answers, build) is Rules && document_in(text@) is Some && ruled(document_in(text@)->0, build) is Ok
            ==> loaded(answers.push(Ok(text)), build) == Loading::Rules(
            loaded(answers, build)->Rules_0 + ruled(document_in(text@)->0, build)->Ok_0,
        ),
{
    assert(answers.push(next).drop_last() =~= answers);
    assert(answers.push(Err(why)).drop_last() =~= answers);
    assert(answers.push(Ok(text)).drop_last() =~= answers);
}

/// Ids are told apart over all files, not only within one.
pub proof fn ids_are_unique_over_all_files(answers: Seq<Result<String, String>>, build: Build, i: int, j: int)
    ensures
        merged(answers, build) is Rules && 0 <= i < j < merged(answers, build)->Rules_0.len() ==> merged(
            answers,
            build,
        )->Rules_0[i].id != merged(answers, build)->Rules_0[j].id,
        merged(answers, build) is Rules ==> merged(answers, build) == loaded(answers, build),
        !(loaded(answers, build) is Rules) ==> merged(answers, build) == loaded(answers, build),
{
    if merged(answers, build) is Rules && 0 <= i < j < merged(answers, build)->Rules_0.len() {
        let targets = merged(answers, build)->Rules_0;
        let ids = ids_of(targets);
        what_is_wrong_with_ids(ids, i, j);
        assert(ids[i] == targets[i].id && ids[j] == targets[j].id);
    }
}

} // verus!
