//! The attribute table of an element: an ordered list in which attributes
//! are found by local name, by qualified name, or by namespace and local name.

use crate::node::{attrs_view, opt_view, Attribute, AttributeView, Dom, NodeData, NodeDataView, QualName, QualNameView};
use crate::shape::{DomNode, Shape};
use crate::text::{same_str, string_from, chars_of};
use vstd::prelude::*;

verus! {

/// By what an attribute is looked for.
pub enum AttrKey {
    /// Its local name, whatever its namespace and prefix.
    Local(Seq<char>),
    /// Its prefix, a colon and its local name; its local name alone where it
    /// has no prefix.
    Qualified(Seq<char>),
    /// Its namespace and its local name.
    Namespaced(Seq<char>, Seq<char>),
    /// Its whole name: prefix, namespace and local name.
    Full(QualNameView),
    /// The prefix `xmlns` and this local name.
    XmlnsFor(Seq<char>),
    /// The local name `xmlns` and no prefix.
    XmlnsDefault,
    /// The prefix `xmlns` and this value.
    XmlnsValue(Seq<char>),
}

/// The name as it is written with its prefix.
pub open spec fn qualified(name: QualNameView) -> Seq<char> {
    match name.prefix {
        Some(p) => p + seq![':'] + name.local,
        None => name.local,
    }
}

/// Whether the attribute is one that the key looks for.
pub open spec fn key_matches(a: AttributeView, key: AttrKey) -> bool {
    match key {
        AttrKey::Local(n) => a.name.local == n,
        AttrKey::Qualified(n) => qualified(a.name) == n,
        AttrKey::Namespaced(ns, local) => a.name.ns == ns && a.name.local == local,
        AttrKey::Full(q) => a.name == q,
        AttrKey::XmlnsFor(local) => a.name.prefix == Some("xmlns"@) && a.name.local == local,
        AttrKey::XmlnsDefault => a.name.local == "xmlns"@ && a.name.prefix is None,
        AttrKey::XmlnsValue(v) => a.value == v && a.name.prefix == Some("xmlns"@),
    }
}

/// The index of the first attribute that the key looks for, or the length of
/// the list where there is none.
pub open spec fn first_with(attrs: Seq<AttributeView>, key: AttrKey) -> int
    decreases attrs.len(),
{
    if attrs.len() == 0 || key_matches(attrs[0], key) {
        0
    } else {
        1 + first_with(attrs.skip(1), key)
    }
}

/// The first match stands in the list, matches, and has no match before it.
pub proof fn lemma_first_with(attrs: Seq<AttributeView>, key: AttrKey)
    ensures
        0 <= first_with(attrs, key) <= attrs.len(),
        forall|j: int| 0 <= j < first_with(attrs, key) ==> !key_matches(attrs[j], key),
        first_with(attrs, key) < attrs.len() ==> key_matches(attrs[first_with(attrs, key)], key),
    decreases attrs.len(),
{
    if attrs.len() == 0 || key_matches(attrs[0], key) {
    } else {
        lemma_first_with(attrs.skip(1), key);
        let n = first_with(attrs.skip(1), key);
        assert forall|j: int| 0 <= j < first_with(attrs, key) implies !key_matches(
            attrs[j],
            key,
        ) by {
            if j > 0 {
                assert(attrs.skip(1)[j - 1] == attrs[j]);
            }
        }
        if n < attrs.skip(1).len() {
            assert(attrs.skip(1)[n] == attrs[n + 1]);
        }
    }
}

/// A match with no match before it, or the end of a list with no match, is the first match.
pub proof fn lemma_first_found(attrs: Seq<AttributeView>, key: AttrKey, n: int)
    requires
        0 <= n <= attrs.len(),
        forall|j: int| 0 <= j < n ==> !key_matches(attrs[j], key),
        n == attrs.len() || key_matches(attrs[n], key),
    ensures
        first_with(attrs, key) == n,
{
    lemma_first_with(attrs, key);
    let f = first_with(attrs, key);
    if f < n {
        assert(key_matches(attrs[f], key));
    }
}

/// The value of the attribute at index `i`, if there is one.
pub open spec fn value_at(attrs: Seq<AttributeView>, i: int) -> Option<Seq<char>> {
    if 0 <= i < attrs.len() {
        Some(attrs[i].value)
    } else {
        None
    }
}

/// The value of the first attribute with the local name `name`; failing
/// that, of the first whose qualified name is `name`.
pub open spec fn attribute_value(attrs: Seq<AttributeView>, name: Seq<char>) -> Option<Seq<char>> {
    if first_with(attrs, AttrKey::Local(name)) < attrs.len() {
        value_at(attrs, first_with(attrs, AttrKey::Local(name)))
    } else {
        value_at(attrs, first_with(attrs, AttrKey::Qualified(name)))
    }
}

/// The list with `value` given to the first attribute that the key looks
/// for, or with a new attribute of that name and value at its end.
pub open spec fn put(
    attrs: Seq<AttributeView>,
    key: AttrKey,
    name: QualNameView,
    value: Seq<char>,
) -> Seq<AttributeView> {
    let i = first_with(attrs, key);
    if i < attrs.len() {
        attrs.update(i, AttributeView { name: attrs[i].name, value })
    } else {
        attrs.push(AttributeView { name, value })
    }
}

/// The list without the first attribute that the key looks for.
pub open spec fn without(attrs: Seq<AttributeView>, key: AttrKey) -> Seq<AttributeView> {
    let i = first_with(attrs, key);
    if i < attrs.len() {
        attrs.remove(i)
    } else {
        attrs
    }
}

/// A name without namespace and prefix.
pub open spec fn plain_name(local: Seq<char>) -> QualNameView {
    QualNameView { prefix: None, ns: Seq::empty(), local }
}

/// The attributes of an element; none for any other node.
pub open spec fn attrs_of(d: NodeDataView) -> Seq<AttributeView> {
    match d {
        NodeDataView::Element { name, attrs } => attrs,
        _ => Seq::empty(),
    }
}

/// The element with another attribute list; any other data as it is.
pub open spec fn with_attrs(d: NodeDataView, attrs: Seq<AttributeView>) -> NodeDataView {
    match d {
        NodeDataView::Element { name, attrs: _ } => NodeDataView::Element { name, attrs },
        _ => d,
    }
}

/// The list after a presence toggle of the attribute `name`, and whether the
/// attribute is present afterwards: as `force` says, or the opposite of
/// before where `force` says nothing.
pub open spec fn toggled(attrs: Seq<AttributeView>, name: Seq<char>, force: Option<bool>) -> (
    Seq<AttributeView>,
    bool,
) {
    let present = first_with(attrs, AttrKey::Local(name)) < attrs.len();
    let wanted = match force {
        Some(f) => f,
        None => !present,
    };
    if wanted {
        (
            if present {
                attrs
            } else {
                attrs.push(AttributeView { name: plain_name(name), value: Seq::empty() })
            },
            true,
        )
    } else {
        (without(attrs, AttrKey::Local(name)), false)
    }
}

/// The index of the first colon of `s`, or the length of `s`.
pub open spec fn colon_at(s: Seq<char>) -> int
    decreases s.len(),
{
    if s.len() == 0 || s[0] == ':' {
        0
    } else {
        1 + colon_at(s.skip(1))
    }
}

/// A colon with no colon before it, or the end of a text without one, is where the first colon is.
pub proof fn lemma_colon_found(s: Seq<char>, n: int)
    requires
        0 <= n <= s.len(),
        forall|j: int| 0 <= j < n ==> s[j] != ':',
        n == s.len() || s[n] == ':',
    ensures
        colon_at(s) == n,
    decreases s.len(),
{
    if s.len() == 0 || s[0] == ':' {
        if n > 0 {
            assert(s[0] != ':');
        }
    } else {
        assert forall|j: int| 0 <= j < n - 1 implies s.skip(1)[j] != ':' by {
            assert(s.skip(1)[j] == s[j + 1]);
        }
        if n - 1 < s.skip(1).len() {
            assert(s.skip(1)[n - 1] == s[n]);
        }
        lemma_colon_found(s.skip(1), n - 1);
    }
}

/// The name that `prefix:local` spells in the namespace `ns`: what stands
/// before the first colon is the prefix, what follows it the local name. A
/// text without a colon is a local name without prefix.
pub open spec fn spelled_name(ns: Option<Seq<char>>, name: Seq<char>) -> QualNameView {
    let at = colon_at(name);
    let space = match ns {
        Some(n) => n,
        None => Seq::empty(),
    };
    if at < name.len() {
        QualNameView {
            prefix: Some(name.subrange(0, at)),
            ns: space,
            local: name.subrange(at + 1, name.len() as int),
        }
    } else {
        QualNameView { prefix: None, ns: space, local: name }
    }
}

/// The namespace that an optional text names: itself, or the empty one.
pub open spec fn space_of(ns: Option<Seq<char>>) -> Seq<char> {
    match ns {
        Some(n) => n,
        None => Seq::empty(),
    }
}

/// By what an attribute is looked for, as the code holds it.
pub enum AttrQuery<'a> {
    Local(&'a str),
    Qualified(&'a str),
    Namespaced(&'a str, &'a str),
    Full(&'a QualName),
    XmlnsFor(&'a str),
    XmlnsDefault,
    XmlnsValue(&'a str),
}

impl<'a> AttrQuery<'a> {
    /// What the query looks for, as contracts speak of it.
    pub open spec fn key(&self) -> AttrKey {
        match *self {
            AttrQuery::Local(n) => AttrKey::Local(n@),
            AttrQuery::Qualified(n) => AttrKey::Qualified(n@),
            AttrQuery::Namespaced(ns, local) => AttrKey::Namespaced(ns@, local@),
            AttrQuery::Full(q) => AttrKey::Full(q@),
            AttrQuery::XmlnsFor(local) => AttrKey::XmlnsFor(local@),
            AttrQuery::XmlnsDefault => AttrKey::XmlnsDefault,
            AttrQuery::XmlnsValue(v) => AttrKey::XmlnsValue(v@),
        }
    }

    /// Whether the attribute is one that this query looks for.
    pub fn accepts(&self, a: &Attribute) -> (r: bool)
        ensures
            r == key_matches(a@, self.key()),
    {
        match self {
            AttrQuery::Local(n) => same_str(a.name.local.as_str(), n),
            AttrQuery::Qualified(n) => {
                let q = qualified_name(&a.name);
                same_str(q.as_str(), n)
            },
            AttrQuery::Namespaced(ns, local) => same_str(a.name.ns.as_str(), ns) && same_str(
                a.name.local.as_str(),
                local,
            ),
            AttrQuery::Full(q) => same_prefix(&a.name.prefix, &q.prefix) && same_str(
                a.name.ns.as_str(),
                q.ns.as_str(),
            ) && same_str(a.name.local.as_str(), q.local.as_str()),
            AttrQuery::XmlnsFor(local) => prefix_is(&a.name.prefix, "xmlns") && same_str(
                a.name.local.as_str(),
                local,
            ),
            AttrQuery::XmlnsDefault => same_str(a.name.local.as_str(), "xmlns")
                && a.name.prefix.is_none(),
            AttrQuery::XmlnsValue(v) => same_str(a.value.as_str(), v) && prefix_is(
                &a.name.prefix,
                "xmlns",
            ),
        }
    }
}

/// The name as it is written with its prefix.
pub fn qualified_name(name: &QualName) -> (r: String)
    ensures
        r@ == qualified(name@),
{
    match &name.prefix {
        Some(p) => {
            let mut q = p.clone();
            q.push(':');
            q.append(name.local.as_str());
            assert(q@ =~= p@ + seq![':'] + name.local@);
            q
        },
        None => name.local.clone(),
    }
}

fn same_prefix(a: &Option<String>, b: &Option<String>) -> (r: bool)
    ensures
        r == (opt_view(*a) == opt_view(*b)),
{
    match (a, b) {
        (Some(x), Some(y)) => same_str(x.as_str(), y.as_str()),
        (None, None) => true,
        _ => false,
    }
}

fn prefix_is(a: &Option<String>, text: &str) -> (r: bool)
    ensures
        r == (opt_view(*a) == Some(text@)),
{
    match a {
        Some(x) => same_str(x.as_str(), text),
        None => false,
    }
}

/// The index of the first attribute that the query looks for, or the length
/// of the list.
pub fn find_attr(attrs: &Vec<Attribute>, query: &AttrQuery) -> (r: usize)
    ensures
        r == first_with(attrs_view(attrs@), query.key()),
        r <= attrs.len(),
{
    let mut i: usize = 0;
    while i < attrs.len()
        invariant
            i <= attrs.len(),
            forall|j: int| 0 <= j < i ==> !key_matches(attrs_view(attrs@)[j], query.key()),
        decreases attrs.len() - i,
    {
        if query.accepts(&attrs[i]) {
            proof {
                lemma_first_found(attrs_view(attrs@), query.key(), i as int);
            }
            return i;
        }
        i += 1;
    }
    proof {
        lemma_first_found(attrs_view(attrs@), query.key(), i as int);
    }
    i
}

/// Gives `value` to the first attribute of the element that the query looks
/// for, or adds an attribute `name` with that value.
fn put_attr(dom: &mut Dom, n: DomNode, query: &AttrQuery, name: QualName, value: String)
    requires
        old(dom).has(n),
    ensures
        final(dom).shape() == old(dom).shape(),
        final(dom).datas() == old(dom).datas().update(
            n.id as int,
            with_attrs(
                old(dom).data_of(n),
                put(attrs_of(old(dom).data_of(n)), query.key(), name@, value@),
            ),
        ),
{
    let at = match dom.data(n) {
        NodeData::Element { name: _, attrs } => {
            let i = find_attr(attrs, query);
            Some((i, i < attrs.len()))
        },
        _ => None,
    };
    match at {
        Some((i, found)) => {
            if found {
                dom.set_attr_value(n, i, value);
            } else {
                dom.push_attr(n, Attribute { name, value });
            }
        },
        None => {
            proof {
                assert(dom.datas() =~= dom.datas().update(n.id as int, dom.data_of(n)));
            }
        },
    }
}

/// Takes out the first attribute of the element that the query looks for.
fn drop_attr(dom: &mut Dom, n: DomNode, query: &AttrQuery)
    requires
        old(dom).has(n),
    ensures
        final(dom).shape() == old(dom).shape(),
        final(dom).datas() == old(dom).datas().update(
            n.id as int,
            with_attrs(old(dom).data_of(n), without(attrs_of(old(dom).data_of(n)), query.key())),
        ),
{
    let at = match dom.data(n) {
        NodeData::Element { name: _, attrs } => {
            let i = find_attr(attrs, query);
            if i < attrs.len() {
                Some(i)
            } else {
                None
            }
        },
        _ => None,
    };
    match at {
        Some(i) => {
            dom.remove_attr(n, i);
        },
        None => {
            proof {
                assert(dom.datas() =~= dom.datas().update(n.id as int, dom.data_of(n)));
            }
        },
    }
}

/// The value of the first attribute that the query looks for.
fn read_attr(dom: &Dom, n: DomNode, query: &AttrQuery) -> (r: Option<String>)
    requires
        dom.has(n),
    ensures
        opt_view(r) == value_at(
            attrs_of(dom.data_of(n)),
            first_with(attrs_of(dom.data_of(n)), query.key()),
        ),
{
    match dom.data(n) {
        NodeData::Element { name: _, attrs } => {
            let i = find_attr(attrs, query);
            if i < attrs.len() {
                Some(attrs[i].value.clone())
            } else {
                None
            }
        },
        _ => None,
    }
}

/// Cuts `prefix:local` at its first colon and puts the parts into a name of
/// the namespace `ns`.
pub fn spell_name(namespace: Option<String>, name: &str) -> (r: QualName)
    ensures
        r@ == spelled_name(opt_view(namespace), name@),
{
    let v = chars_of(name);
    let mut at: usize = 0;
    while at < v.len() && v[at] != ':'
        invariant
            at <= v.len(),
            forall|j: int| 0 <= j < at ==> v@[j] != ':',
        decreases v.len() - at,
    {
        at += 1;
    }
    proof {
        lemma_colon_found(v@, at as int);
    }
    let ns = match namespace {
        Some(n) => n,
        None => String::new(),
    };
    if at < v.len() {
        QualName {
            prefix: Some(string_from(&v, 0, at)),
            ns,
            local: string_from(&v, at + 1, v.len()),
        }
    } else {
        let local = string_from(&v, 0, v.len());
        assert(v@.subrange(0, v.len() as int) =~= v@);
        QualName { prefix: None, ns, local }
    }
}

impl DomNode {
    /// The value of the first attribute with the local name `name`; failing
    /// that, of the first attribute whose name with its prefix is `name`.
    pub fn get_attribute(&self, dom: &Dom, name: String) -> (r: Option<String>)
        requires
            dom.has(*self),
        ensures
            opt_view(r) == attribute_value(attrs_of(dom.data_of(*self)), name@),
    {
        proof {
            lemma_first_with(attrs_of(dom.data_of(*self)), AttrKey::Local(name@));
        }
        match read_attr(dom, *self, &AttrQuery::Local(name.as_str())) {
            Some(v) => Some(v),
            None => read_attr(dom, *self, &AttrQuery::Qualified(name.as_str())),
        }
    }

    /// Whether `get_attribute` finds a value for `name`.
    pub fn has_attribute(&self, dom: &Dom, name: String) -> (r: bool)
        requires
            dom.has(*self),
        ensures
            r == attribute_value(attrs_of(dom.data_of(*self)), name@).is_some(),
    {
        self.get_attribute(dom, name).is_some()
    }

    /// Gives `value` to the first attribute with the local name `name`, or
    /// adds an attribute of that name, without namespace and prefix.
    pub fn set_attribute(&self, dom: &mut Dom, name: String, value: String)
        requires
            old(dom).has(*self),
        ensures
            final(dom).shape() == old(dom).shape(),
            final(dom).datas() == old(dom).datas().update(
                self.id as int,
                with_attrs(
                    old(dom).data_of(*self),
                    put(
                        attrs_of(old(dom).data_of(*self)),
                        AttrKey::Local(name@),
                        plain_name(name@),
                        value@,
                    ),
                ),
            ),
    {
        let fresh = QualName { prefix: None, ns: String::new(), local: name.clone() };
        put_attr(dom, *self, &AttrQuery::Local(name.as_str()), fresh, value);
    }

    /// Takes out the first attribute with the local name `name`.
    pub fn remove_attribute(&self, dom: &mut Dom, name: String)
        requires
            old(dom).has(*self),
        ensures
            final(dom).shape() == old(dom).shape(),
            final(dom).datas() == old(dom).datas().update(
                self.id as int,
                with_attrs(
                    old(dom).data_of(*self),
                    without(attrs_of(old(dom).data_of(*self)), AttrKey::Local(name@)),
                ),
            ),
    {
        drop_attr(dom, *self, &AttrQuery::Local(name.as_str()));
    }

    /// Makes the attribute `name` present or absent: as `force` says, or the
    /// opposite of what it is. Returns whether it is present afterwards; on a
    /// node that is no element, `false`.
    pub fn toggle_attribute(&self, dom: &mut Dom, name: String, force: Option<bool>) -> (r: bool)
        requires
            old(dom).has(*self),
        ensures
            final(dom).shape() == old(dom).shape(),
            final(dom).datas() == old(dom).datas().update(
                self.id as int,
                with_attrs(
                    old(dom).data_of(*self),
                    toggled(attrs_of(old(dom).data_of(*self)), name@, force).0,
                ),
            ),
            r == (old(dom).data_of(*self) is Element && toggled(
                attrs_of(old(dom).data_of(*self)),
                name@,
                force,
            ).1),
    {
        let state = match dom.data(*self) {
            NodeData::Element { name: _, attrs } => {
                let i = find_attr(attrs, &AttrQuery::Local(name.as_str()));
                Some(i < attrs.len())
            },
            _ => None,
        };
        match state {
            Some(present) => {
                let wanted = match force {
                    Some(f) => f,
                    None => !present,
                };
                if wanted {
                    if !present {
                        let fresh = QualName {
                            prefix: None,
                            ns: String::new(),
                            local: name.clone(),
                        };
                        put_attr(
                            dom,
                            *self,
                            &AttrQuery::Local(name.as_str()),
                            fresh,
                            String::new(),
                        );
                    } else {
                        proof {
                            assert(dom.datas() =~= dom.datas().update(
                                self.id as int,
                                dom.data_of(*self),
                            ));
                        }
                    }
                    true
                } else {
                    drop_attr(dom, *self, &AttrQuery::Local(name.as_str()));
                    false
                }
            },
            None => {
                proof {
                    assert(dom.datas() =~= dom.datas().update(self.id as int, dom.data_of(*self)));
                }
                false
            },
        }
    }

    /// The value of the first attribute with this namespace and local name.
    pub fn get_attribute_ns(&self, dom: &Dom, namespace: Option<String>, local_name: String) -> (r:
        Option<String>)
        requires
            dom.has(*self),
        ensures
            opt_view(r) == value_at(
                attrs_of(dom.data_of(*self)),
                first_with(
                    attrs_of(dom.data_of(*self)),
                    AttrKey::Namespaced(space_of(opt_view(namespace)), local_name@),
                ),
            ),
    {
        let ns = match namespace {
            Some(n) => n,
            None => String::new(),
        };
        read_attr(dom, *self, &AttrQuery::Namespaced(ns.as_str(), local_name.as_str()))
    }

    /// Whether there is an attribute with this namespace and local name.
    pub fn has_attribute_ns(&self, dom: &Dom, namespace: Option<String>, local_name: String) -> (r:
        bool)
        requires
            dom.has(*self),
        ensures
            r == (first_with(
                attrs_of(dom.data_of(*self)),
                AttrKey::Namespaced(space_of(opt_view(namespace)), local_name@),
            ) < attrs_of(dom.data_of(*self)).len()),
    {
        proof {
            lemma_first_with(
                attrs_of(dom.data_of(*self)),
                AttrKey::Namespaced(space_of(opt_view(namespace)), local_name@),
            );
        }
        self.get_attribute_ns(dom, namespace, local_name).is_some()
    }

    /// Gives `value` to the attribute that `name`, written as `prefix:local`
    /// or as a local name alone, spells in the namespace: the first attribute
    /// with that prefix, namespace and local name, or a new one at the end.
    pub fn set_attribute_ns(
        &self,
        dom: &mut Dom,
        namespace: Option<String>,
        name: String,
        value: String,
    )
        requires
            old(dom).has(*self),
        ensures
            final(dom).shape() == old(dom).shape(),
            final(dom).datas() == old(dom).datas().update(
                self.id as int,
                with_attrs(
                    old(dom).data_of(*self),
                    put(
                        attrs_of(old(dom).data_of(*self)),
                        AttrKey::Full(spelled_name(opt_view(namespace), name@)),
                        spelled_name(opt_view(namespace), name@),
                        value@,
                    ),
                ),
            ),
    {
        let spelled = spell_name(namespace, name.as_str());
        let fresh = spelled.duplicate();
        put_attr(dom, *self, &AttrQuery::Full(&spelled), fresh, value);
    }

    /// Takes out the first attribute with this namespace and local name.
    pub fn remove_attribute_ns(&self, dom: &mut Dom, namespace: Option<String>, local_name: String)
        requires
            old(dom).has(*self),
        ensures
            final(dom).shape() == old(dom).shape(),
            final(dom).datas() == old(dom).datas().update(
                self.id as int,
                with_attrs(
                    old(dom).data_of(*self),
                    without(
                        attrs_of(old(dom).data_of(*self)),
                        AttrKey::Namespaced(space_of(opt_view(namespace)), local_name@),
                    ),
                ),
            ),
    {
        let ns = match namespace {
            Some(n) => n,
            None => String::new(),
        };
        drop_attr(dom, *self, &AttrQuery::Namespaced(ns.as_str(), local_name.as_str()));
    }

    /// Whether the node is an element with at least one attribute.
    pub fn has_attributes(&self, dom: &Dom) -> (r: bool)
        requires
            dom.has(*self),
        ensures
            r == (attrs_of(dom.data_of(*self)).len() > 0),
    {
        match dom.data(*self) {
            NodeData::Element { name: _, attrs } => attrs.len() > 0,
            _ => false,
        }
    }
}

/// The name as an attribute list shows it: with its prefix and a colon
/// where the prefix is not empty.
pub open spec fn shown_name(name: QualNameView) -> Seq<char> {
    match name.prefix {
        Some(p) => if p.len() == 0 {
            name.local
        } else {
            p + seq![':'] + name.local
        },
        None => name.local,
    }
}

/// The first attribute that the key looks for on `x` or, failing that, on
/// the nearest node above `x` that has one.
pub open spec fn inherited(s: Shape, datas: Seq<NodeDataView>, x: DomNode, key: AttrKey) -> Option<
    AttributeView,
>
    decreases s.rank_of(x),
    when s.wf() && s.has(x)
{
    let attrs = attrs_of(datas[x.id as int]);
    if first_with(attrs, key) < attrs.len() {
        Some(attrs[first_with(attrs, key)])
    } else {
        match s.parent_of(x) {
            Some(p) => {
                proof {
                    assert(s.node_ok(x));
                }
                inherited(s, datas, p, key)
            },
            None => None,
        }
    }
}

/// The first attribute that the query looks for on `x` or above it, as its
/// local name and its value.
fn find_inherited(dom: &Dom, x: DomNode, query: &AttrQuery) -> (r: Option<(String, String)>)
    requires
        dom.wf(),
        dom.has(x),
    ensures
        match inherited(dom.shape(), dom.datas(), x, query.key()) {
            Some(a) => r is Some && r.unwrap().0@ == a.name.local && r.unwrap().1@ == a.value,
            None => r is None,
        },
{
    let mut cur = x;
    loop
        invariant
            dom.wf(),
            dom.has(cur),
            inherited(dom.shape(), dom.datas(), x, query.key()) == inherited(
                dom.shape(),
                dom.datas(),
                cur,
                query.key(),
            ),
        decreases dom.shape().rank_of(cur),
    {
        proof {
            assert(dom.shape().node_ok(cur));
        }
        match dom.data(cur) {
            NodeData::Element { name: _, attrs } => {
                let i = find_attr(attrs, query);
                if i < attrs.len() {
                    return Some((attrs[i].name.local.clone(), attrs[i].value.clone()));
                }
            },
            _ => {},
        }
        match dom.parent(cur) {
            Some(p) => {
                cur = p;
            },
            None => {
                return None;
            },
        }
    }
}

/// The texts of an optional pair's second part.
pub open spec fn value_part(a: Option<AttributeView>) -> Option<Seq<char>> {
    match a {
        Some(x) => Some(x.value),
        None => None,
    }
}

/// The texts of an optional pair's first part.
pub open spec fn local_part(a: Option<AttributeView>) -> Option<Seq<char>> {
    match a {
        Some(x) => Some(x.name.local),
        None => None,
    }
}

impl DomNode {
    /// The names of the element's attributes, in order, each with its prefix
    /// where it has one that is not empty.
    pub fn get_attribute_names(&self, dom: &Dom) -> (r: Vec<String>)
        requires
            dom.has(*self),
        ensures
            r.len() == attrs_of(dom.data_of(*self)).len(),
            forall|i: int|
                0 <= i < r.len() ==> r[i]@ == shown_name(attrs_of(dom.data_of(*self))[i].name),
    {
        let mut r: Vec<String> = Vec::new();
        match dom.data(*self) {
            NodeData::Element { name: _, attrs } => {
                let mut i: usize = 0;
                while i < attrs.len()
                    invariant
                        i <= attrs.len(),
                        r.len() == i,
                        forall|k: int|
                            0 <= k < i ==> r[k]@ == shown_name(attrs_view(attrs@)[k].name),
                    decreases attrs.len() - i,
                {
                    let a = &attrs[i];
                    let shown = match &a.name.prefix {
                        Some(p) => {
                            if p.as_str().unicode_len() == 0 {
                                a.name.local.clone()
                            } else {
                                qualified_name(&a.name)
                            }
                        },
                        None => a.name.local.clone(),
                    };
                    r.push(shown);
                    i += 1;
                }
            },
            _ => {},
        }
        r
    }

    /// The value of the `id` attribute, or the empty text.
    pub fn id(&self, dom: &Dom) -> (r: String)
        requires
            dom.has(*self),
        ensures
            r@ == match attribute_value(attrs_of(dom.data_of(*self)), "id"@) {
                Some(v) => v,
                None => Seq::empty(),
            },
    {
        match self.get_attribute(dom, "id".to_owned()) {
            Some(v) => v,
            None => String::new(),
        }
    }

    /// Gives the `id` attribute a value.
    pub fn set_id(&self, dom: &mut Dom, id: String)
        requires
            old(dom).has(*self),
        ensures
            final(dom).shape() == old(dom).shape(),
            final(dom).datas() == old(dom).datas().update(
                self.id as int,
                with_attrs(
                    old(dom).data_of(*self),
                    put(
                        attrs_of(old(dom).data_of(*self)),
                        AttrKey::Local("id"@),
                        plain_name("id"@),
                        id@,
                    ),
                ),
            ),
    {
        self.set_attribute(dom, "id".to_owned(), id);
    }

    /// The value of the `class` attribute, or the empty text.
    pub fn class_name(&self, dom: &Dom) -> (r: String)
        requires
            dom.has(*self),
        ensures
            r@ == match attribute_value(attrs_of(dom.data_of(*self)), "class"@) {
                Some(v) => v,
                None => Seq::empty(),
            },
    {
        match self.get_attribute(dom, "class".to_owned()) {
            Some(v) => v,
            None => String::new(),
        }
    }

    /// Gives the `class` attribute a value.
    pub fn set_class_name(&self, dom: &mut Dom, class_name: String)
        requires
            old(dom).has(*self),
        ensures
            final(dom).shape() == old(dom).shape(),
            final(dom).datas() == old(dom).datas().update(
                self.id as int,
                with_attrs(
                    old(dom).data_of(*self),
                    put(
                        attrs_of(old(dom).data_of(*self)),
                        AttrKey::Local("class"@),
                        plain_name("class"@),
                        class_name@,
                    ),
                ),
            ),
    {
        self.set_attribute(dom, "class".to_owned(), class_name);
    }

    /// The namespace that `prefix` stands for at this node: the value of the
    /// nearest `xmlns:prefix` attribute on the node or above it; for no prefix,
    /// of the nearest `xmlns` attribute without prefix.
    pub fn lookup_namespace_uri(&self, dom: &Dom, prefix: Option<String>) -> (r: Option<String>)
        requires
            dom.wf(),
            dom.has(*self),
        ensures
            opt_view(r) == value_part(
                inherited(
                    dom.shape(),
                    dom.datas(),
                    *self,
                    match prefix {
                        Some(p) => AttrKey::XmlnsFor(p@),
                        None => AttrKey::XmlnsDefault,
                    },
                ),
            ),
    {
        let found = match &prefix {
            Some(p) => find_inherited(dom, *self, &AttrQuery::XmlnsFor(p.as_str())),
            None => find_inherited(dom, *self, &AttrQuery::XmlnsDefault),
        };
        match found {
            Some((_, value)) => Some(value),
            None => None,
        }
    }

    /// The prefix that stands for `namespace` at this node: the local name
    /// of the nearest attribute with the prefix `xmlns` and that value.
    pub fn lookup_prefix(&self, dom: &Dom, namespace: String) -> (r: Option<String>)
        requires
            dom.wf(),
            dom.has(*self),
        ensures
            opt_view(r) == local_part(
                inherited(dom.shape(), dom.datas(), *self, AttrKey::XmlnsValue(namespace@)),
            ),
    {
        match find_inherited(dom, *self, &AttrQuery::XmlnsValue(namespace.as_str())) {
            Some((local, _)) => Some(local),
            None => None,
        }
    }

    /// Whether `namespace` is the default namespace at this node. Nothing is
    /// ever taken for the default, so the answer is always no.
    pub fn is_default_namespace(&self, namespace: Option<String>) -> (r: bool)
        ensures
            !r,
    {
        false
    }
}

} // verus!
