//! The logical identity of an entity, stable across its versions.

use vstd::prelude::*;
use crate::text_order::{
    compare_text, lemma_text_before_irreflexive, lemma_text_before_total,
    lemma_text_before_transitive, same_text, text_before, TextOrder,
};

verus! {

/// The key of an entity: its own name and the key of the entity that owns it.
/// A top-level entity has an empty scope; a child carries its parent's name
/// there, so that children of different parents never share a history.
#[derive(Debug, Clone)]
pub struct EntityKey {
    pub scope: String,
    pub name: String,
}

/// An entity key as plain text.
pub struct KeyView {
    pub scope: Seq<char>,
    pub name: Seq<char>,
}

impl View for EntityKey {
    type V = KeyView;

    open spec fn view(&self) -> KeyView {
        KeyView { scope: self.scope@, name: self.name@ }
    }
}

/// The key of the top-level entity called `name`.
pub open spec fn top_key(name: Seq<char>) -> KeyView {
    KeyView { scope: Seq::empty(), name }
}

/// The key of the child called `name` of the entity called `parent`.
pub open spec fn child_key(parent: Seq<char>, name: Seq<char>) -> KeyView {
    KeyView { scope: parent, name }
}

/// Keys are listed by scope first and by name within a scope.
pub open spec fn key_before(a: KeyView, b: KeyView) -> bool {
    text_before(a.scope, b.scope) || (a.scope == b.scope && text_before(a.name, b.name))
}

/// The relation of key `a` to key `b` as a three-way result.
pub open spec fn key_order(a: KeyView, b: KeyView) -> TextOrder {
    if a == b {
        TextOrder::Same
    } else if key_before(a, b) {
        TextOrder::Before
    } else {
        TextOrder::After
    }
}

/// No key comes before itself.
pub proof fn lemma_key_before_irreflexive(a: KeyView)
    ensures
        !key_before(a, a),
{
    lemma_text_before_irreflexive(a.scope);
    lemma_text_before_irreflexive(a.name);
}

/// The key order is transitive.
pub proof fn lemma_key_before_transitive(a: KeyView, b: KeyView, c: KeyView)
    requires
        key_before(a, b),
        key_before(b, c),
    ensures
        key_before(a, c),
{
    if text_before(a.scope, b.scope) && text_before(b.scope, c.scope) {
        lemma_text_before_transitive(a.scope, b.scope, c.scope);
    }
    if text_before(a.name, b.name) && text_before(b.name, c.name) {
        lemma_text_before_transitive(a.name, b.name, c.name);
    }
    lemma_text_before_irreflexive(b.scope);
}

/// Of two different keys one comes before the other.
pub proof fn lemma_key_before_total(a: KeyView, b: KeyView)
    ensures
        a == b || key_before(a, b) || key_before(b, a),
{
    lemma_text_before_total(a.scope, b.scope);
    lemma_text_before_total(a.name, b.name);
}

/// A key never stands both before and after another.
pub proof fn lemma_key_before_asymmetric(a: KeyView, b: KeyView)
    requires
        key_before(a, b),
    ensures
        !key_before(b, a),
        a != b,
{
    lemma_key_before_irreflexive(a);
    if key_before(b, a) {
        lemma_key_before_transitive(a, b, a);
    }
}

impl EntityKey {
    /// The key of a top-level entity.
    pub fn top(name: &str) -> (k: EntityKey)
        ensures
            k@ == top_key(name@),
    {
        EntityKey { scope: String::new(), name: name.to_owned() }
    }

    /// The key of a child of the entity called `parent`.
    pub fn child(parent: &str, name: &str) -> (k: EntityKey)
        ensures
            k@ == child_key(parent@, name@),
    {
        EntityKey { scope: parent.to_owned(), name: name.to_owned() }
    }

    /// A copy of this key.
    pub fn duplicate(&self) -> (k: EntityKey)
        ensures
            k@ == self@,
    {
        EntityKey { scope: self.scope.clone(), name: self.name.clone() }
    }

    /// Whether both keys name the same entity.
    pub fn same(&self, other: &EntityKey) -> (r: bool)
        ensures
            r == (self@ == other@),
    {
        same_text(self.scope.as_str(), other.scope.as_str()) && same_text(
            self.name.as_str(),
            other.name.as_str(),
        )
    }

    /// Compares two keys in the listing order.
    pub fn compare(&self, other: &EntityKey) -> (o: TextOrder)
        ensures
            o == key_order(self@, other@),
    {
        proof {
            lemma_text_before_irreflexive(self.scope@);
            if text_before(other.scope@, self.scope@) && text_before(self.scope@, other.scope@) {
                lemma_text_before_transitive(self.scope@, other.scope@, self.scope@);
            }
        }
        match compare_text(self.scope.as_str(), other.scope.as_str()) {
            TextOrder::Before => TextOrder::Before,
            TextOrder::After => TextOrder::After,
            TextOrder::Same => compare_text(self.name.as_str(), other.name.as_str()),
        }
    }
}

/// Whether two optional partitions are the same one.
pub fn same_partition(a: &Option<String>, b: &Option<String>) -> (r: bool)
    ensures
        r == (a.deep_view() == b.deep_view()),
{
    match (a, b) {
        (None, None) => true,
        (Some(x), Some(y)) => same_text(x.as_str(), y.as_str()),
        _ => false,
    }
}

/// A copy of an optional partition.
pub fn duplicate_partition(a: &Option<String>) -> (r: Option<String>)
    ensures
        r.deep_view() == a.deep_view(),
{
    match a {
        None => None,
        Some(x) => Some(x.clone()),
    }
}

} // verus!
