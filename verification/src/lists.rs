//! Two views of an element's attributes: the class list, which is the
//! `class` attribute read as words, and the data set, which is made of the
//! attributes whose names begin with `data-`.

use crate::attrs::{attribute_value, attrs_of, put, plain_name, with_attrs, without, AttrKey};
use crate::node::{attrs_view, AttributeView, Dom, NodeData, NodeDataView};
use crate::shape::DomNode;
use crate::text::{
    camel_of,
    camel_to_kebab,
    chars_of,
    has_token,
    join_tokens,
    joined,
    kebab_of,
    kebab_to_camel,
    same_str,
    split_tokens,
    string_from,
    tokens,
    views,
};
use vstd::prelude::*;

verus! {

/// The value of the `class` attribute, or the empty text.
pub open spec fn class_text(d: NodeDataView) -> Seq<char> {
    match attribute_value(attrs_of(d), "class"@) {
        Some(v) => v,
        None => Seq::empty(),
    }
}

/// The data with `text` as the value of the `class` attribute.
pub open spec fn with_class(d: NodeDataView, text: Seq<char>) -> NodeDataView {
    with_attrs(d, put(attrs_of(d), AttrKey::Local("class"@), plain_name("class"@), text))
}

/// The first `n` of the words without those equal to `word`.
pub open spec fn kept(words: Seq<Seq<char>>, word: Seq<char>, n: nat) -> Seq<Seq<char>>
    decreases n,
{
    if n == 0 {
        Seq::empty()
    } else if words[n - 1] == word {
        kept(words, word, (n - 1) as nat)
    } else {
        kept(words, word, (n - 1) as nat).push(words[n - 1])
    }
}

/// The words without those equal to `word`.
fn drop_token(words: &Vec<String>, word: &str) -> (r: Vec<String>)
    ensures
        views(r@) == kept(views(words@), word@, words.len() as nat),
{
    let mut r: Vec<String> = Vec::new();
    let mut i: usize = 0;
    assert(views(r@) =~= Seq::<Seq<char>>::empty());
    while i < words.len()
        invariant
            i <= words.len(),
            views(r@) == kept(views(words@), word@, i as nat),
        decreases words.len() - i,
    {
        assert(views(words@)[i as int] == words[i as int]@);
        if !same_str(words[i].as_str(), word) {
            let ghost before = views(r@);
            r.push(words[i].clone());
            assert(views(r@) =~= before.push(words[i as int]@));
        }
        i += 1;
    }
    r
}

/// The class text after `token` has been added: the words with `token` at
/// their end, joined by spaces; as it was where `token` is among them.
pub open spec fn class_added(text: Seq<char>, token: Seq<char>) -> Option<Seq<char>> {
    if tokens(text).contains(token) {
        None
    } else {
        Some(joined(tokens(text).push(token)))
    }
}

/// The class text after `token` has been taken out: the other words,
/// joined by spaces.
pub open spec fn class_removed(text: Seq<char>, token: Seq<char>) -> Seq<char> {
    joined(kept(tokens(text), token, tokens(text).len()))
}

/// The data after the class text has been given a new value, if any.
pub open spec fn reclassed(d: NodeDataView, text: Option<Seq<char>>) -> NodeDataView {
    match text {
        Some(t) => with_class(d, t),
        None => d,
    }
}

/// What a toggle of `token` does to the class text, and what it returns:
/// the token is added where it is wanted and absent, taken out where it is
/// unwanted and present; it is wanted as `force` says, or where it is absent.
pub open spec fn class_toggled(text: Seq<char>, token: Seq<char>, force: Option<bool>) -> (
    Option<Seq<char>>,
    bool,
) {
    let present = tokens(text).contains(token);
    let wanted = match force {
        Some(f) => f,
        None => !present,
    };
    if wanted && !present {
        (Some(joined(tokens(text).push(token))), true)
    } else if !wanted && present {
        (Some(class_removed(text, token)), false)
    } else {
        (None, present)
    }
}

/// Whether the name begins with `data-`.
pub open spec fn is_data_name(name: Seq<char>) -> bool {
    name.len() >= 5 && name[0] == 'd' && name[1] == 'a' && name[2] == 't' && name[3] == 'a'
        && name[4] == '-'
}

/// The index of the first entry with the key, or the number of entries.
pub open spec fn key_at(pairs: Seq<(Seq<char>, Seq<char>)>, key: Seq<char>) -> int
    decreases pairs.len(),
{
    if pairs.len() == 0 || pairs[0].0 == key {
        0
    } else {
        1 + key_at(pairs.skip(1), key)
    }
}

/// The first entry with the key stands among the entries, and none
/// before it has the key.
pub proof fn lemma_key_at(pairs: Seq<(Seq<char>, Seq<char>)>, key: Seq<char>)
    ensures
        0 <= key_at(pairs, key) <= pairs.len(),
        forall|j: int| 0 <= j < key_at(pairs, key) ==> (#[trigger] pairs[j]).0 != key,
        key_at(pairs, key) < pairs.len() ==> pairs[key_at(pairs, key)].0 == key,
    decreases pairs.len(),
{
    if pairs.len() == 0 || pairs[0].0 == key {
    } else {
        lemma_key_at(pairs.skip(1), key);
        let n = key_at(pairs.skip(1), key);
        assert forall|j: int| 0 <= j < key_at(pairs, key) implies (#[trigger] pairs[j]).0
            != key by {
            if j > 0 {
                assert(pairs.skip(1)[j - 1] == pairs[j]);
            }
        }
        if n < pairs.skip(1).len() {
            assert(pairs.skip(1)[n] == pairs[n + 1]);
        }
    }
}

/// An entry with the key and no entry with it before, or the end of
/// entries without it, is where the first entry with the key stands.
pub proof fn lemma_key_found(pairs: Seq<(Seq<char>, Seq<char>)>, key: Seq<char>, n: int)
    requires
        0 <= n <= pairs.len(),
        forall|j: int| 0 <= j < n ==> (#[trigger] pairs[j]).0 != key,
        n == pairs.len() || pairs[n].0 == key,
    ensures
        key_at(pairs, key) == n,
{
    lemma_key_at(pairs, key);
    let f = key_at(pairs, key);
    if f < n {
        assert(pairs[f].0 == key);
    }
}

/// The entries with the value under the key: in the place of the entry
/// that had the key, or at the end where none had it.
pub open spec fn with_entry(pairs: Seq<(Seq<char>, Seq<char>)>, key: Seq<char>, value: Seq<char>) -> Seq<
    (Seq<char>, Seq<char>),
> {
    if key_at(pairs, key) < pairs.len() {
        pairs.update(key_at(pairs, key), (key, value))
    } else {
        pairs.push((key, value))
    }
}

/// Whether no two entries have one key.
pub open spec fn keys_differ(pairs: Seq<(Seq<char>, Seq<char>)>) -> bool {
    forall|i: int, j: int| 0 <= i < j < pairs.len() ==> (#[trigger] pairs[i]).0 != (#[trigger] pairs[j]).0
}

/// The data set entries of the first `n` attributes: for each attribute
/// whose local name begins with `data-`, the camel-case form of the rest of
/// the name, with the attribute's value. Where two attributes give one key,
/// the entry has the value of the later.
pub open spec fn dataset_of(attrs: Seq<AttributeView>, n: nat) -> Seq<(Seq<char>, Seq<char>)>
    decreases n,
{
    if n == 0 {
        Seq::empty()
    } else if is_data_name(attrs[n - 1].name.local) {
        let rest = attrs[n - 1].name.local.skip(5);
        with_entry(dataset_of(attrs, (n - 1) as nat), camel_of(rest, rest.len()), attrs[n - 1].value)
    } else {
        dataset_of(attrs, (n - 1) as nat)
    }
}

/// No key occurs twice in a data set.
pub proof fn lemma_dataset_keys_differ(attrs: Seq<AttributeView>, n: nat)
    ensures
        keys_differ(dataset_of(attrs, n)),
    decreases n,
{
    if n > 0 {
        lemma_dataset_keys_differ(attrs, (n - 1) as nat);
        if is_data_name(attrs[n - 1].name.local) {
            let rest = attrs[n - 1].name.local.skip(5);
            let before = dataset_of(attrs, (n - 1) as nat);
            let key = camel_of(rest, rest.len());
            lemma_key_at(before, key);
            let after = with_entry(before, key, attrs[n - 1].value);
            assert forall|i: int, j: int| 0 <= i < j < after.len() implies (#[trigger] after[i]).0
                != (#[trigger] after[j]).0 by {
                if key_at(before, key) < before.len() {
                    assert(after[i].0 == before[i].0);
                    assert(after[j].0 == before[j].0);
                } else {
                    if j < before.len() {
                        assert(after[i] == before[i] && after[j] == before[j]);
                    } else {
                        assert(after[i] == before[i]);
                    }
                }
            }
        }
    }
}

/// The texts of a list of pairs.
pub open spec fn pair_views(v: Seq<(String, String)>) -> Seq<(Seq<char>, Seq<char>)> {
    Seq::new(v.len(), |i: int| (v[i].0@, v[i].1@))
}

/// The attribute name of a data set key.
pub open spec fn data_name(key: Seq<char>) -> Seq<char> {
    seq!['d', 'a', 't', 'a', '-'] + kebab_of(key, key.len())
}

/// The attribute name of a data set key.
pub fn data_attr_name(key: &str) -> (r: String)
    ensures
        r@ == data_name(key@),
{
    let mut r = String::new();
    r.push('d');
    r.push('a');
    r.push('t');
    r.push('a');
    r.push('-');
    let tail = camel_to_kebab(key);
    r.append(tail.as_str());
    assert(r@ =~= data_name(key@));
    r
}

impl DomNode {
    /// Adds `token` to the words of the `class` attribute, unless it is one
    /// of them.
    pub fn _class_list_add(&self, dom: &mut Dom, token: String)
        requires
            old(dom).has(*self),
        ensures
            final(dom).shape() == old(dom).shape(),
            final(dom).datas() == old(dom).datas().update(
                self.id as int,
                reclassed(
                    old(dom).data_of(*self),
                    class_added(class_text(old(dom).data_of(*self)), token@),
                ),
            ),
    {
        let class = self.class_name(dom);
        let mut classes = split_tokens(class.as_str());
        if !has_token(&classes, token.as_str()) {
            let ghost before = views(classes@);
            classes.push(token);
            assert(views(classes@) =~= before.push(token@));
            self.set_class_name(dom, join_tokens(&classes));
        } else {
            proof {
                assert(dom.datas() =~= dom.datas().update(self.id as int, dom.data_of(*self)));
            }
        }
    }

    /// Takes every word equal to `token` out of the `class` attribute.
    pub fn _class_list_remove(&self, dom: &mut Dom, token: String)
        requires
            old(dom).has(*self),
        ensures
            final(dom).shape() == old(dom).shape(),
            final(dom).datas() == old(dom).datas().update(
                self.id as int,
                with_class(
                    old(dom).data_of(*self),
                    class_removed(class_text(old(dom).data_of(*self)), token@),
                ),
            ),
    {
        let class = self.class_name(dom);
        let classes = split_tokens(class.as_str());
        let rest = drop_token(&classes, token.as_str());
        self.set_class_name(dom, join_tokens(&rest));
    }

    /// Adds `token` to the words of the `class` attribute or takes it out:
    /// as `force` says, or the opposite of what it is. Returns whether it is
    /// among the words afterwards.
    pub fn _class_list_toggle(&self, dom: &mut Dom, token: String, force: Option<bool>) -> (r: bool)
        requires
            old(dom).has(*self),
        ensures
            final(dom).shape() == old(dom).shape(),
            final(dom).datas() == old(dom).datas().update(
                self.id as int,
                reclassed(
                    old(dom).data_of(*self),
                    class_toggled(class_text(old(dom).data_of(*self)), token@, force).0,
                ),
            ),
            r == class_toggled(class_text(old(dom).data_of(*self)), token@, force).1,
    {
        let class = self.class_name(dom);
        let mut classes = split_tokens(class.as_str());
        let present = has_token(&classes, token.as_str());
        let wanted = match force {
            Some(f) => f,
            None => !present,
        };
        if wanted && !present {
            let ghost before = views(classes@);
            classes.push(token);
            assert(views(classes@) =~= before.push(token@));
            self.set_class_name(dom, join_tokens(&classes));
            true
        } else if !wanted && present {
            let rest = drop_token(&classes, token.as_str());
            self.set_class_name(dom, join_tokens(&rest));
            false
        } else {
            proof {
                assert(dom.datas() =~= dom.datas().update(self.id as int, dom.data_of(*self)));
            }
            present
        }
    }

    /// Whether `token` is one of the words of the `class` attribute.
    pub fn _class_list_contains(&self, dom: &Dom, token: String) -> (r: bool)
        requires
            dom.has(*self),
        ensures
            r == tokens(class_text(dom.data_of(*self))).contains(token@),
    {
        let class = self.class_name(dom);
        let classes = split_tokens(class.as_str());
        has_token(&classes, token.as_str())
    }

    /// The data set of the element: for each attribute whose local name
    /// begins with `data-`, the camel-case form of the rest of the name, with
    /// the value. No key occurs twice: where two attributes give one key, the
    /// entry stands where the first put it and has the value of the later.
    pub fn _dataset_get(&self, dom: &Dom) -> (r: Vec<(String, String)>)
        requires
            dom.has(*self),
        ensures
            pair_views(r@) == dataset_of(
                attrs_of(dom.data_of(*self)),
                attrs_of(dom.data_of(*self)).len(),
            ),
            keys_differ(pair_views(r@)),
    {
        proof {
            lemma_dataset_keys_differ(
                attrs_of(dom.data_of(*self)),
                attrs_of(dom.data_of(*self)).len(),
            );
        }
        let mut r: Vec<(String, String)> = Vec::new();
        assert(pair_views(r@) =~= Seq::<(Seq<char>, Seq<char>)>::empty());
        match dom.data(*self) {
            NodeData::Element { name: _, attrs } => {
                let mut i: usize = 0;
                while i < attrs.len()
                    invariant
                        i <= attrs.len(),
                        pair_views(r@) == dataset_of(attrs_view(attrs@), i as nat),
                    decreases attrs.len() - i,
                {
                    let a = &attrs[i];
                    assert(attrs_view(attrs@)[i as int] == a@);
                    let name = chars_of(a.name.local.as_str());
                    if name.len() >= 5 && name[0] == 'd' && name[1] == 'a' && name[2] == 't'
                        && name[3] == 'a' && name[4] == '-' {
                        let rest = string_from(&name, 5, name.len());
                        assert(rest@ =~= a.name.local@.skip(5));
                        let key = kebab_to_camel(rest.as_str());
                        let ghost before = pair_views(r@);
                        let mut at: usize = 0;
                        while at < r.len() && !same_str(r[at].0.as_str(), key.as_str())
                            invariant
                                at <= r.len(),
                                before == pair_views(r@),
                                forall|j: int| 0 <= j < at ==> (#[trigger] before[j]).0 != key@,
                            decreases r.len() - at,
                        {
                            assert(before[at as int].0 == r[at as int].0@);
                            at += 1;
                        }
                        proof {
                            if at < r.len() {
                                assert(before[at as int].0 == r[at as int].0@);
                            }
                            lemma_key_found(before, key@, at as int);
                        }
                        if at < r.len() {
                            r[at] = (key, a.value.clone());
                            assert(pair_views(r@) =~= before.update(at as int, (key@, a.value@)));
                        } else {
                            r.push((key, a.value.clone()));
                            assert(pair_views(r@) =~= before.push((key@, a.value@)));
                        }
                    }
                    i += 1;
                }
            },
            _ => {},
        }
        r
    }

    /// Gives the data set entry `key` a value: the attribute `data-` with
    /// the dashed form of the key.
    pub fn _dataset_set(&self, dom: &mut Dom, key: String, value: String)
        requires
            old(dom).has(*self),
        ensures
            final(dom).shape() == old(dom).shape(),
            final(dom).datas() == old(dom).datas().update(
                self.id as int,
                with_attrs(
                    old(dom).data_of(*self),
                    put(
                        attrs_of(old(dom).data_of(*self)),
                        AttrKey::Local(data_name(key@)),
                        plain_name(data_name(key@)),
                        value@,
                    ),
                ),
            ),
    {
        let name = data_attr_name(key.as_str());
        self.set_attribute(dom, name, value);
    }

    /// Takes the data set entry `key` out.
    pub fn _dataset_remove(&self, dom: &mut Dom, key: String)
        requires
            old(dom).has(*self),
        ensures
            final(dom).shape() == old(dom).shape(),
            final(dom).datas() == old(dom).datas().update(
                self.id as int,
                with_attrs(
                    old(dom).data_of(*self),
                    without(attrs_of(old(dom).data_of(*self)), AttrKey::Local(data_name(key@))),
                ),
            ),
    {
        let name = data_attr_name(key.as_str());
        self.remove_attribute(dom, name);
    }
}

} // verus!
