//! The payload of results and notifications: constants, tuples of named
//! values, and lists.

use crate::escape::{escape_command, escaped};
use crate::text::push_char;
use vstd::prelude::*;
use vstd::std_specs::cmp::PartialEqSpecImpl;

verus! {

/// A value as the debugger reports it.
///
/// A tuple maps keys to values and keeps the order in which its keys
/// first appeared; no key occurs twice in a tuple made by this library.
#[derive(Debug)]
pub enum Value {
    Const(String),
    Tuple(Vec<(String, Value)>),
    List(Vec<Value>),
}

/// A value as a mathematical object.
pub enum ValueView {
    Const(Seq<char>),
    Tuple(Seq<(Seq<char>, ValueView)>),
    List(Seq<ValueView>),
}

impl View for Value {
    type V = ValueView;

    open spec fn view(&self) -> ValueView
        decreases self,
    {
        match self {
            Value::Const(text) => ValueView::Const(text@),
            Value::Tuple(entries) => ValueView::Tuple(
                Seq::new(
                    entries@.len(),
                    |i: int|
                        if 0 <= i < entries@.len() {
                            (entries@[i].0@, entries@[i].1.view())
                        } else {
                            (Seq::empty(), ValueView::Const(Seq::empty()))
                        },
                ),
            ),
            Value::List(items) => ValueView::List(
                Seq::new(
                    items@.len(),
                    |i: int|
                        if 0 <= i < items@.len() {
                            items@[i].view()
                        } else {
                            ValueView::Const(Seq::empty())
                        },
                ),
            ),
        }
    }
}

/// The named values that a vector of entries holds.
pub open spec fn tuple_view(entries: Seq<(String, Value)>) -> Seq<(Seq<char>, ValueView)> {
    Seq::new(entries.len(), |i: int| (entries[i].0@, entries[i].1@))
}

/// The values that a vector of values holds.
pub open spec fn list_view(items: Seq<Value>) -> Seq<ValueView> {
    Seq::new(items.len(), |i: int| items[i]@)
}

/// A tuple is seen as the named values of its entries.
pub proof fn lemma_tuple_view(entries: Vec<(String, Value)>)
    ensures
        Value::Tuple(entries)@ == ValueView::Tuple(tuple_view(entries@)),
{
    reveal_with_fuel(<Value as View>::view, 2);
    assert(Value::Tuple(entries)@->Tuple_0 =~= tuple_view(entries@));
}

/// A list is seen as the values of its items.
pub proof fn lemma_list_view(items: Vec<Value>)
    ensures
        Value::List(items)@ == ValueView::List(list_view(items@)),
{
    reveal_with_fuel(<Value as View>::view, 2);
    assert(Value::List(items)@->List_0 =~= list_view(items@));
}

/// The first position at or after `from` whose key is `key`, or the
/// length of `t` if there is none.
pub open spec fn key_index_from(t: Seq<(Seq<char>, ValueView)>, key: Seq<char>, from: int) -> int
    decreases t.len() - from,
{
    if 0 <= from < t.len() && t[from].0 != key {
        key_index_from(t, key, from + 1)
    } else {
        from
    }
}

/// The first position whose key is `key`, or the length of `t` if there
/// is none.
pub open spec fn key_index(t: Seq<(Seq<char>, ValueView)>, key: Seq<char>) -> int {
    key_index_from(t, key, 0)
}

/// `key_index_from` stops exactly at the first entry under `key`.
pub proof fn lemma_key_index_from(t: Seq<(Seq<char>, ValueView)>, key: Seq<char>, from: int)
    requires
        0 <= from <= t.len(),
    ensures
        from <= key_index_from(t, key, from) <= t.len(),
        forall|j: int| from <= j < key_index_from(t, key, from) ==> (#[trigger] t[j]).0 != key,
        key_index_from(t, key, from) < t.len() ==> t[key_index_from(t, key, from)].0 == key,
    decreases t.len() - from,
{
    if from < t.len() && t[from].0 != key {
        lemma_key_index_from(t, key, from + 1);
    }
}

/// Whether no key occurs twice in `t`.
pub open spec fn keys_distinct(t: Seq<(Seq<char>, ValueView)>) -> bool {
    forall|i: int, j: int| 0 <= i < j < t.len() ==> (#[trigger] t[i]).0 != (#[trigger] t[j]).0
}

/// `t` with `value` under `key`: in the place of the entry that `key`
/// had, or at the end if it had none.
pub open spec fn inserted(t: Seq<(Seq<char>, ValueView)>, key: Seq<char>, value: ValueView) -> Seq<
    (Seq<char>, ValueView),
> {
    let i = key_index(t, key);
    if i < t.len() {
        t.update(i, (key, value))
    } else {
        t.push((key, value))
    }
}

/// The tuple that a sequence of named values makes when they are put in
/// one after the other: where a key repeats, the later value stands in
/// the place of the earlier one.
pub open spec fn normalized(pairs: Seq<(Seq<char>, ValueView)>) -> Seq<(Seq<char>, ValueView)>
    decreases pairs.len(),
{
    if pairs.len() == 0 {
        Seq::empty()
    } else {
        inserted(normalized(pairs.drop_last()), pairs.last().0, pairs.last().1)
    }
}

/// Putting a value into a tuple without repeated keys leaves it without
/// repeated keys, and the value is then found under its key.
pub proof fn lemma_inserted(t: Seq<(Seq<char>, ValueView)>, key: Seq<char>, value: ValueView)
    requires
        keys_distinct(t),
    ensures
        keys_distinct(inserted(t, key, value)),
        key_index(inserted(t, key, value), key) < inserted(t, key, value).len(),
        inserted(t, key, value)[key_index(inserted(t, key, value), key)] == (key, value),
{
    let r = inserted(t, key, value);
    let i = key_index(t, key);
    lemma_key_index_from(t, key, 0);
    lemma_key_index_from(r, key, 0);
    assert(r[i] == (key, value));
    assert forall|a: int, b: int| 0 <= a < b < r.len() implies (#[trigger] r[a]).0 != (
    #[trigger] r[b]).0 by {
        if a != i && b != i {
            assert(r[a] == t[a] && r[b] == t[b]);
        } else if a == i {
            if i < t.len() {
                assert(r[b] == t[b]);
                assert(t[i].0 != t[b].0);
            }
        } else {
            assert(r[a] == t[a]);
            if i < t.len() {
                assert(t[a].0 != t[i].0);
            }
        }
    }
    let k = key_index(r, key);
    if k != i {
        if k < i {
            assert(r[k].0 == key);
            assert(r[k] == t[k]);
        }
    }
}

/// A tuple made by putting values in one after the other holds no value
/// but those that were put in.
pub proof fn lemma_normalized_from(pairs: Seq<(Seq<char>, ValueView)>, i: int)
    requires
        0 <= i < normalized(pairs).len(),
    ensures
        exists|j: int| 0 <= j < pairs.len() && #[trigger] pairs[j] == normalized(pairs)[i],
    decreases pairs.len(),
{
    if pairs.len() > 0 {
        let before = normalized(pairs.drop_last());
        let last = pairs.last();
        let k = key_index(before, last.0);
        lemma_key_index_from(before, last.0, 0);
        if normalized(pairs)[i] == last {
            assert(pairs[pairs.len() - 1] == last);
        } else {
            assert(i < before.len() && normalized(pairs)[i] == before[i]);
            lemma_normalized_from(pairs.drop_last(), i);
            let j = choose|j: int|
                0 <= j < pairs.drop_last().len() && #[trigger] pairs.drop_last()[j] == before[i];
            assert(pairs[j] == normalized(pairs)[i]);
        }
    }
}

/// A tuple made by putting values in one after the other has no
/// repeated key.
pub proof fn lemma_normalized_distinct(pairs: Seq<(Seq<char>, ValueView)>)
    ensures
        keys_distinct(normalized(pairs)),
    decreases pairs.len(),
{
    if pairs.len() > 0 {
        lemma_normalized_distinct(pairs.drop_last());
        lemma_inserted(normalized(pairs.drop_last()), pairs.last().0, pairs.last().1);
    }
}

/// The parts, with a comma between each two neighbours.
pub open spec fn joined(parts: Seq<Seq<char>>) -> Seq<char>
    decreases parts.len(),
{
    if parts.len() == 0 {
        Seq::empty()
    } else if parts.len() == 1 {
        parts[0]
    } else {
        joined(parts.drop_last()) + seq![','] + parts.last()
    }
}

impl ValueView {
    /// The value under `key`, if this is a tuple that has one.
    pub open spec fn lookup(self, key: Seq<char>) -> Option<ValueView> {
        match self {
            ValueView::Tuple(entries) => if key_index(entries, key) < entries.len() {
                Some(entries[key_index(entries, key)].1)
            } else {
                None
            },
            _ => None,
        }
    }

    /// Whether no tuple in this value, at any depth, has a repeated key.
    pub open spec fn well_formed(self) -> bool
        decreases self,
    {
        match self {
            ValueView::Const(_) => true,
            ValueView::Tuple(entries) => keys_distinct(entries) && forall|i: int|
                0 <= i < entries.len() ==> (#[trigger] entries[i]).1.well_formed(),
            ValueView::List(items) => forall|i: int|
                0 <= i < items.len() ==> (#[trigger] items[i]).well_formed(),
        }
    }

    /// How each entry of a tuple is written: the key, an equals sign and
    /// the value.
    pub open spec fn rendered_entries(self) -> Seq<Seq<char>>
        decreases self, 0nat,
    {
        match self {
            ValueView::Tuple(entries) => Seq::new(
                entries.len(),
                |i: int|
                    if 0 <= i < entries.len() {
                        entries[i].0 + seq!['='] + entries[i].1.rendered()
                    } else {
                        Seq::empty()
                    },
            ),
            ValueView::List(items) => Seq::new(
                items.len(),
                |i: int|
                    if 0 <= i < items.len() {
                        items[i].rendered()
                    } else {
                        Seq::empty()
                    },
            ),
            ValueView::Const(_) => Seq::empty(),
        }
    }

    /// The textual form of the value: a constant between double quotes
    /// with its escapes, a tuple between braces, a list between square
    /// brackets, with commas between entries.
    pub open spec fn rendered(self) -> Seq<char>
        decreases self, 1nat,
    {
        match self {
            ValueView::Const(text) => escaped(text),
            ValueView::Tuple(_) => seq!['{'] + joined(self.rendered_entries()) + seq!['}'],
            ValueView::List(_) => seq!['['] + joined(self.rendered_entries()) + seq![']'],
        }
    }
}

impl Clone for Value {
    fn clone(&self) -> (r: Value)
        ensures
            r@ == self@,
        decreases self,
    {
        match self {
            Value::Const(text) => Value::Const(text.clone()),
            Value::Tuple(entries) => {
                let mut copy: Vec<(String, Value)> = Vec::new();
                let mut i: usize = 0;
                while i < entries.len()
                    invariant
                        i <= entries.len(),
                        *self == Value::Tuple(*entries),
                        copy.len() == i,
                        forall|j: int|
                            0 <= j < i ==> (#[trigger] copy@[j]).0@ == entries@[j].0@ && copy@[j].1@
                                == entries@[j].1@,
                    decreases entries.len() - i,
                {
                    proof {
                        assert(*entries == self->Tuple_0);
                        assert(decreases_to!(*self => self->Tuple_0));
                        assert(decreases_to!(*entries => entries@[i as int]));
                        assert(decreases_to!(entries@[i as int] => entries@[i as int].1));
                    }
                    copy.push((entries[i].0.clone(), entries[i].1.clone()));
                    i += 1;
                }
                proof {
                    assert(tuple_view(copy@) =~= tuple_view(entries@));
                    lemma_tuple_view(copy);
                    lemma_tuple_view(*entries);
                }
                Value::Tuple(copy)
            },
            Value::List(items) => {
                let mut copy: Vec<Value> = Vec::new();
                let mut i: usize = 0;
                while i < items.len()
                    invariant
                        i <= items.len(),
                        *self == Value::List(*items),
                        copy.len() == i,
                        forall|j: int| 0 <= j < i ==> (#[trigger] copy@[j])@ == items@[j]@,
                    decreases items.len() - i,
                {
                    proof {
                        assert(*items == self->List_0);
                        assert(decreases_to!(*self => self->List_0));
                        assert(decreases_to!(*items => items@[i as int]));
                    }
                    copy.push(items[i].clone());
                    i += 1;
                }
                proof {
                    assert(list_view(copy@) =~= list_view(items@));
                    lemma_list_view(copy);
                    lemma_list_view(*items);
                }
                Value::List(copy)
            },
        }
    }
}

impl PartialEq for Value {
    fn eq(&self, other: &Value) -> (r: bool)
        decreases self,
    {
        match (self, other) {
            (Value::Const(a), Value::Const(b)) => *a == *b,
            (Value::Tuple(a), Value::Tuple(b)) => {
                proof {
                    lemma_tuple_view(*a);
                    lemma_tuple_view(*b);
                }
                if a.len() != b.len() {
                    assert(tuple_view(a@).len() != tuple_view(b@).len());
                    return false;
                }
                let mut i: usize = 0;
                while i < a.len()
                    invariant
                        i <= a.len(),
                        a.len() == b.len(),
                        *self == Value::Tuple(*a),
                        *other == Value::Tuple(*b),
                        self@ == ValueView::Tuple(tuple_view(a@)),
                        other@ == ValueView::Tuple(tuple_view(b@)),
                        forall|j: int|
                            0 <= j < i ==> (#[trigger] a@[j]).0@ == b@[j].0@ && a@[j].1@
                                == b@[j].1@,
                    decreases a.len() - i,
                {
                    proof {
                        assert(*a == self->Tuple_0);
                        assert(decreases_to!(*self => self->Tuple_0));
                        assert(decreases_to!(*a => a@[i as int]));
                        assert(decreases_to!(a@[i as int] => a@[i as int].1));
                    }
                    if !(a[i].0 == b[i].0) || !a[i].1.eq(&b[i].1) {
                        assert(tuple_view(a@)[i as int] != tuple_view(b@)[i as int]);
                        return false;
                    }
                    i += 1;
                }
                assert(tuple_view(a@) =~= tuple_view(b@));
                true
            },
            (Value::List(a), Value::List(b)) => {
                proof {
                    lemma_list_view(*a);
                    lemma_list_view(*b);
                }
                if a.len() != b.len() {
                    assert(list_view(a@).len() != list_view(b@).len());
                    return false;
                }
                let mut i: usize = 0;
                while i < a.len()
                    invariant
                        i <= a.len(),
                        a.len() == b.len(),
                        *self == Value::List(*a),
                        *other == Value::List(*b),
                        self@ == ValueView::List(list_view(a@)),
                        other@ == ValueView::List(list_view(b@)),
                        forall|j: int| 0 <= j < i ==> (#[trigger] a@[j])@ == b@[j]@,
                    decreases a.len() - i,
                {
                    proof {
                        assert(*a == self->List_0);
                        assert(decreases_to!(*self => self->List_0));
                        assert(decreases_to!(*a => a@[i as int]));
                    }
                    if !a[i].eq(&b[i]) {
                        assert(list_view(a@)[i as int] != list_view(b@)[i as int]);
                        return false;
                    }
                    i += 1;
                }
                assert(list_view(a@) =~= list_view(b@));
                true
            },
            _ => false,
        }
    }
}

impl PartialEqSpecImpl for Value {
    open spec fn obeys_eq_spec() -> bool {
        true
    }

    open spec fn eq_spec(&self, other: &Value) -> bool {
        self@ == other@
    }
}

impl Eq for Value {

}

/// How the entries of a tuple and the items of a list are written, one
/// by one.
pub proof fn lemma_rendered_entries(v: ValueView)
    ensures
        v matches ValueView::Tuple(entries) ==> v.rendered_entries().len() == entries.len()
            && forall|i: int|
            0 <= i < entries.len() ==> #[trigger] v.rendered_entries()[i] == entries[i].0
                + seq!['='] + entries[i].1.rendered(),
        v matches ValueView::List(items) ==> v.rendered_entries().len() == items.len()
            && forall|i: int|
            0 <= i < items.len() ==> #[trigger] v.rendered_entries()[i] == items[i].rendered(),
{
    reveal_with_fuel(ValueView::rendered_entries, 2);
}

/// Puts `value` under `key` into `entries`: in the place of the entry
/// that `key` had, or at the end if it had none.
pub fn insert_entry(entries: &mut Vec<(String, Value)>, key: String, value: Value)
    ensures
        tuple_view(final(entries)@) == inserted(tuple_view(old(entries)@), key@, value@),
{
    let ghost t = tuple_view(entries@);
    let mut i: usize = 0;
    while i < entries.len() && !(entries[i].0 == key)
        invariant
            i <= entries.len(),
            entries@ == old(entries)@,
            t == tuple_view(entries@),
            key_index(t, key@) == key_index_from(t, key@, i as int),
        decreases entries.len() - i,
    {
        assert(t[i as int].0 == entries@[i as int].0@);
        i += 1;
    }
    if i < entries.len() {
        assert(t[i as int].0 == entries@[i as int].0@);
        entries.set(i, (key, value));
        assert(tuple_view(entries@) =~= t.update(i as int, (key@, value@)));
    } else {
        entries.push((key, value));
        assert(tuple_view(entries@) =~= t.push((key@, value@)));
    }
}

impl Value {
    /// The text of a constant; `None` for a tuple or a list.
    pub fn as_const(&self) -> (r: Option<&String>)
        ensures
            match r {
                Some(text) => self@ == ValueView::Const(text@),
                None => !(self@ is Const),
            },
    {
        match self {
            Value::Const(text) => Some(text),
            _ => None,
        }
    }

    /// The entries of a tuple; `None` for a constant or a list.
    pub fn as_tuple(&self) -> (r: Option<&Vec<(String, Value)>>)
        ensures
            match r {
                Some(entries) => self@ == ValueView::Tuple(tuple_view(entries@)),
                None => !(self@ is Tuple),
            },
    {
        match self {
            Value::Tuple(entries) => {
                proof {
                    lemma_tuple_view(*entries);
                }
                Some(entries)
            },
            _ => None,
        }
    }

    /// The items of a list; `None` for a constant or a tuple.
    pub fn as_list(&self) -> (r: Option<&Vec<Value>>)
        ensures
            match r {
                Some(items) => self@ == ValueView::List(list_view(items@)),
                None => !(self@ is List),
            },
    {
        match self {
            Value::List(items) => {
                proof {
                    lemma_list_view(*items);
                }
                Some(items)
            },
            _ => None,
        }
    }

    /// The value under `key` in a tuple; `None` where there is no such
    /// key, or where this is no tuple.
    pub fn get(&self, key: &str) -> (r: Option<&Value>)
        ensures
            match r {
                Some(v) => self@.lookup(key@) == Some(v@),
                None => self@.lookup(key@) is None,
            },
    {
        match self {
            Value::Tuple(entries) => {
                let wanted = key.to_owned();
                let ghost t = tuple_view(entries@);
                proof {
                    lemma_tuple_view(*entries);
                }
                let mut i: usize = 0;
                while i < entries.len() && !(entries[i].0 == wanted)
                    invariant
                        i <= entries.len(),
                        t == tuple_view(entries@),
                        wanted@ == key@,
                        key_index(t, key@) == key_index_from(t, key@, i as int),
                    decreases entries.len() - i,
                {
                    assert(t[i as int].0 == entries@[i as int].0@);
                    i += 1;
                }
                if i < entries.len() {
                    assert(t[i as int] == (entries@[i as int].0@, entries@[i as int].1@));
                    Some(&entries[i].1)
                } else {
                    None
                }
            },
            _ => None,
        }
    }

    /// Appends the textual form of the value to `out`.
    pub fn render_into(&self, out: &mut String)
        ensures
            final(out)@ == old(out)@ + self@.rendered(),
        decreases self,
    {
        match self {
            Value::Const(text) => {
                let quoted = escape_command(text.as_str());
                out.append(quoted.as_str());
            },
            Value::Tuple(entries) => {
                proof {
                    lemma_tuple_view(*entries);
                    lemma_rendered_entries(self@);
                }
                let ghost parts = self@.rendered_entries();
                push_char(out, '{');
                let mut i: usize = 0;
                assert(joined(parts.take(0)) =~= Seq::<char>::empty());
                while i < entries.len()
                    invariant
                        i <= entries.len(),
                        *self == Value::Tuple(*entries),
                        parts == self@.rendered_entries(),
                        parts.len() == entries.len(),
                        forall|j: int|
                            0 <= j < entries.len() ==> #[trigger] parts[j] == entries@[j].0@
                                + seq!['='] + entries@[j].1@.rendered(),
                        out@ == old(out)@ + seq!['{'] + joined(parts.take(i as int)),
                    decreases entries.len() - i,
                {
                    proof {
                        assert(*entries == self->Tuple_0);
                        assert(decreases_to!(*self => self->Tuple_0));
                        assert(decreases_to!(*entries => entries@[i as int]));
                        assert(decreases_to!(entries@[i as int] => entries@[i as int].1));
                    }
                    if i > 0 {
                        push_char(out, ',');
                    }
                    out.append(entries[i].0.as_str());
                    push_char(out, '=');
                    entries[i].1.render_into(out);
                    proof {
                        let now = parts.take(i + 1);
                        assert(now.drop_last() =~= parts.take(i as int));
                        assert(now.last() == parts[i as int]);
                        assert(out@ =~= old(out)@ + seq!['{'] + joined(now));
                    }
                    i += 1;
                }
                assert(parts.take(entries.len() as int) =~= parts);
                push_char(out, '}');
                assert(out@ =~= old(out)@ + self@.rendered());
            },
            Value::List(items) => {
                proof {
                    lemma_list_view(*items);
                    lemma_rendered_entries(self@);
                }
                let ghost parts = self@.rendered_entries();
                push_char(out, '[');
                let mut i: usize = 0;
                assert(joined(parts.take(0)) =~= Seq::<char>::empty());
                while i < items.len()
                    invariant
                        i <= items.len(),
                        *self == Value::List(*items),
                        parts == self@.rendered_entries(),
                        parts.len() == items.len(),
                        forall|j: int|
                            0 <= j < items.len() ==> #[trigger] parts[j] == items@[j]@.rendered(),
                        out@ == old(out)@ + seq!['['] + joined(parts.take(i as int)),
                    decreases items.len() - i,
                {
                    proof {
                        assert(*items == self->List_0);
                        assert(decreases_to!(*self => self->List_0));
                        assert(decreases_to!(*items => items@[i as int]));
                    }
                    if i > 0 {
                        push_char(out, ',');
                    }
                    items[i].render_into(out);
                    proof {
                        let now = parts.take(i + 1);
                        assert(now.drop_last() =~= parts.take(i as int));
                        assert(now.last() == parts[i as int]);
                        assert(out@ =~= old(out)@ + seq!['['] + joined(now));
                    }
                    i += 1;
                }
                assert(parts.take(items.len() as int) =~= parts);
                push_char(out, ']');
                assert(out@ =~= old(out)@ + self@.rendered());
            },
        }
    }

    /// The textual form of the value.
    pub fn to_string(&self) -> (s: String)
        ensures
            s@ == self@.rendered(),
    {
        let mut s = String::new();
        self.render_into(&mut s);
        assert(s@ =~= self@.rendered());
        s
    }
}

} // verus!
