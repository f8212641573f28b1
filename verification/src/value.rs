//! The tree that a JSON text denotes.

use vstd::prelude::*;

verus! {

/// A JSON value.
///
/// Strings and keys keep the text between their quotes as it was written:
/// an escape sequence stays the backslash and the characters that follow it.
/// A number is held as the bit pattern of an IEEE 754 binary64 value.
/// An object is a list of members in which no key occurs twice; the order of
/// the members carries no meaning.
///
/// A value nests as deep as the text that it was read from. Dropping it is
/// left to Rust, which descends into it by recursion; [`discard`] takes a
/// value of any depth apart without.
#[derive(Debug)]
pub enum JsonValue {
    Str(String),
    Boolean(bool),
    Null,
    Num(u64),
    Array(Vec<JsonValue>),
    Object(Vec<(String, JsonValue)>),
}

/// The mathematical content of a [`JsonValue`].
pub ghost enum JsonModel {
    Str(Seq<char>),
    Boolean(bool),
    Null,
    Num(u64),
    Array(Seq<JsonModel>),
    Object(Map<Seq<char>, JsonModel>),
}

impl JsonValue {
    /// The models of the first `n` of `items`, in order.
    pub open spec fn items_view(items: Seq<JsonValue>, n: int) -> Seq<JsonModel>
        decreases items, n,
    {
        if 0 < n <= items.len() {
            Self::items_view(items, n - 1).push(items[n - 1].view())
        } else {
            Seq::empty()
        }
    }

    /// The mapping that the first `n` of `entries` build up when they are
    /// inserted one after the other.
    pub open spec fn entries_view(entries: Seq<(String, JsonValue)>, n: int) -> Map<
        Seq<char>,
        JsonModel,
    >
        decreases entries, n,
    {
        if 0 < n <= entries.len() {
            Self::entries_view(entries, n - 1).insert(
                entries[n - 1].0@,
                entries[n - 1].1.view(),
            )
        } else {
            Map::empty()
        }
    }

    /// No key occurs twice in `entries`.
    pub open spec fn distinct_keys(entries: Seq<(String, JsonValue)>) -> bool {
        forall|i: int, j: int|
            0 <= i < j < entries.len() ==> (#[trigger] entries[i]).0@ != (#[trigger] entries[j]).0@
    }

    /// Every object in the tree has distinct keys.
    pub open spec fn wf(&self) -> bool
        decreases self,
    {
        match self {
            JsonValue::Array(items) => forall|i: int|
                0 <= i < items@.len() ==> (#[trigger] items@[i]).wf(),
            JsonValue::Object(entries) => {
                &&& Self::distinct_keys(entries@)
                &&& forall|i: int| 0 <= i < entries@.len() ==> (#[trigger] entries@[i]).1.wf()
            },
            _ => true,
        }
    }

    /// The members are those of a well-formed object: their keys are
    /// distinct and their values well formed.
    pub open spec fn members_wf(entries: Seq<(String, JsonValue)>) -> bool {
        &&& Self::distinct_keys(entries)
        &&& forall|i: int| 0 <= i < entries.len() ==> (#[trigger] entries[i]).1.wf()
    }
}

impl View for JsonValue {
    type V = JsonModel;

    open spec fn view(&self) -> JsonModel
        decreases self,
    {
        match self {
            JsonValue::Str(s) => JsonModel::Str(s@),
            JsonValue::Boolean(b) => JsonModel::Boolean(*b),
            JsonValue::Null => JsonModel::Null,
            JsonValue::Num(bits) => JsonModel::Num(*bits),
            JsonValue::Array(items) => JsonModel::Array(
                JsonValue::items_view(items@, items@.len() as int),
            ),
            JsonValue::Object(entries) => JsonModel::Object(
                JsonValue::entries_view(entries@, entries@.len() as int),
            ),
        }
    }
}

impl JsonValue {
    /// The model of a list depends on no element behind the `n`th.
    pub proof fn lemma_items_view_prefix(a: Seq<JsonValue>, b: Seq<JsonValue>, n: int)
        requires
            0 <= n <= a.len(),
            n <= b.len(),
            forall|i: int| 0 <= i < n ==> a[i] == b[i],
        ensures
            Self::items_view(a, n) == Self::items_view(b, n),
        decreases n,
    {
        if n > 0 {
            Self::lemma_items_view_prefix(a, b, n - 1);
        }
    }

    /// The model of a list has the models of its elements, in order.
    pub proof fn lemma_items_view(items: Seq<JsonValue>, n: int)
        requires
            0 <= n <= items.len(),
        ensures
            Self::items_view(items, n).len() == n,
            forall|i: int| 0 <= i < n ==> (#[trigger] Self::items_view(items, n)[i]) == items[i]@,
        decreases n,
    {
        if n > 0 {
            Self::lemma_items_view(items, n - 1);
            assert(Self::items_view(items, n) == Self::items_view(items, n - 1).push(
                items[n - 1]@,
            ));
        }
    }

    /// The mapping of a list of members depends on no member behind the
    /// `n`th.
    pub proof fn lemma_entries_view_prefix(
        a: Seq<(String, JsonValue)>,
        b: Seq<(String, JsonValue)>,
        n: int,
    )
        requires
            0 <= n <= a.len(),
            n <= b.len(),
            forall|i: int| 0 <= i < n ==> a[i].0@ == b[i].0@ && a[i].1@ == b[i].1@,
        ensures
            Self::entries_view(a, n) == Self::entries_view(b, n),
        decreases n,
    {
        if n > 0 {
            Self::lemma_entries_view_prefix(a, b, n - 1);
        }
    }

    /// Where the keys are distinct, the mapping holds each member under its
    /// key, and nothing else.
    pub proof fn lemma_entries_view(entries: Seq<(String, JsonValue)>, n: int)
        requires
            Self::distinct_keys(entries),
            0 <= n <= entries.len(),
        ensures
            forall|i: int|
                0 <= i < n ==> Self::entries_view(entries, n).contains_key(
                    (#[trigger] entries[i]).0@,
                ) && Self::entries_view(entries, n)[entries[i].0@] == entries[i].1@,
            forall|k: Seq<char>| #[trigger]
                Self::entries_view(entries, n).contains_key(k) ==> exists|i: int|
                    0 <= i < n && (#[trigger] entries[i]).0@ == k,
        decreases n,
    {
        if n > 0 {
            Self::lemma_entries_view(entries, n - 1);
            let m = Self::entries_view(entries, n);
            let before = Self::entries_view(entries, n - 1);
            let last = entries[n - 1];
            assert(m == before.insert(last.0@, last.1@));
            assert forall|i: int| 0 <= i < n implies m.contains_key((#[trigger] entries[i]).0@)
                && m[entries[i].0@] == entries[i].1@ by {
                if i < n - 1 {
                    assert(entries[i].0@ != last.0@);
                    assert(before.contains_key(entries[i].0@));
                }
            }
            assert forall|k: Seq<char>| #[trigger] m.contains_key(k) implies exists|i: int|
                0 <= i < n && (#[trigger] entries[i]).0@ == k by {
                if k == last.0@ {
                    assert(entries[n - 1].0@ == k);
                } else {
                    assert(before.contains_key(k));
                    let i = choose|i: int| 0 <= i < n - 1 && (#[trigger] entries[i]).0@ == k;
                    assert(0 <= i < n && entries[i].0@ == k);
                }
            }
        }
    }

    /// Members whose key is not `name` do not change what stands under
    /// `name`.
    pub proof fn lemma_entries_view_other_keys(
        entries: Seq<(String, JsonValue)>,
        i: int,
        n: int,
        name: Seq<char>,
    )
        requires
            0 <= i <= n <= entries.len(),
            forall|j: int| i <= j < n ==> (#[trigger] entries[j]).0@ != name,
        ensures
            Self::entries_view(entries, n).contains_key(name) == Self::entries_view(
                entries,
                i,
            ).contains_key(name),
            Self::entries_view(entries, n).contains_key(name) ==> Self::entries_view(
                entries,
                n,
            )[name] == Self::entries_view(entries, i)[name],
        decreases n - i,
    {
        if i < n {
            Self::lemma_entries_view_other_keys(entries, i, n - 1, name);
            assert(entries[n - 1].0@ != name);
            assert(Self::entries_view(entries, n) == Self::entries_view(entries, n - 1).insert(
                entries[n - 1].0@,
                entries[n - 1].1@,
            ));
        }
    }

    /// The value that an object holds under `name`; `None` where it holds
    /// none, or where `self` is no object.
    #[verifier::loop_isolation(false)]
    pub fn get(&self, name: &str) -> (found: Option<&JsonValue>)
        ensures
            match self@ {
                JsonModel::Object(m) => match found {
                    Some(v) => m.contains_key(name@) && m[name@] == v@,
                    None => !m.contains_key(name@),
                },
                _ => found is None,
            },
    {
        match self {
            JsonValue::Object(entries) => {
                let wanted = name.to_owned();
                let mut i = entries.len();
                while i > 0
                    invariant
                        i <= entries@.len(),
                        wanted@ == name@,
                        forall|j: int| i <= j < entries@.len() ==> (#[trigger] entries@[j]).0@
                            != name@,
                    decreases i,
                {
                    if entries[i - 1].0 == wanted {
                        proof {
                            let n = entries@.len() as int;
                            Self::lemma_entries_view_other_keys(entries@, i as int, n, name@);
                            assert(Self::entries_view(entries@, i as int) == Self::entries_view(
                                entries@,
                                i - 1,
                            ).insert(entries@[i - 1].0@, entries@[i - 1].1@));
                            assert(self@ == JsonModel::Object(Self::entries_view(entries@, n)));
                        }
                        return Some(&entries[i - 1].1);
                    }
                    i -= 1;
                }
                proof {
                    Self::lemma_entries_view_other_keys(
                        entries@,
                        0,
                        entries@.len() as int,
                        name@,
                    );
                }
                None
            },
            _ => None,
        }
    }
}

/// Putting a member in place of the last member of its name changes the
/// mapping as putting it in does.
pub proof fn lemma_replace_last(
    before: Seq<(String, JsonValue)>,
    after: Seq<(String, JsonValue)>,
    i: int,
    n: int,
)
    requires
        0 <= i < n <= before.len(),
        after == before.update(i, after[i]),
        after[i].0@ == before[i].0@,
        forall|j: int| i < j < n ==> (#[trigger] before[j]).0@ != before[i].0@,
    ensures
        JsonValue::entries_view(after, n) == JsonValue::entries_view(before, n).insert(
            after[i].0@,
            after[i].1@,
        ),
    decreases n,
{
    let name = after[i].0@;
    let old_map = JsonValue::entries_view(before, n);
    let new_map = JsonValue::entries_view(after, n);
    assert(old_map == JsonValue::entries_view(before, n - 1).insert(
        before[n - 1].0@,
        before[n - 1].1@,
    ));
    assert(new_map == JsonValue::entries_view(after, n - 1).insert(
        after[n - 1].0@,
        after[n - 1].1@,
    ));
    if n == i + 1 {
        JsonValue::lemma_entries_view_prefix(before, after, i);
    } else {
        lemma_replace_last(before, after, i, n - 1);
        assert(after[n - 1] == before[n - 1]);
        assert(before[n - 1].0@ != name);
    }
    assert(new_map =~= old_map.insert(name, after[i].1@));
}

/// Puts the member `name: v` into `entries`: in place of the last member of
/// that name if there is one, else at the end.
#[verifier::loop_isolation(false)]
pub fn upsert(entries: &mut Vec<(String, JsonValue)>, name: String, v: JsonValue)
    ensures
        JsonValue::entries_view(final(entries)@, final(entries)@.len() as int)
            == JsonValue::entries_view(old(entries)@, old(entries)@.len() as int).insert(
            name@,
            v@,
        ),
        JsonValue::distinct_keys(old(entries)@) ==> JsonValue::distinct_keys(final(entries)@),
        JsonValue::members_wf(old(entries)@) && v.wf() ==> JsonValue::members_wf(
            final(entries)@,
        ),
{
    let ghost before = entries@;
    let ghost n = before.len() as int;
    let mut i: usize = entries.len();
    while i > 0
        invariant
            entries@ == before,
            i <= n,
            forall|j: int| i <= j < n ==> (#[trigger] before[j]).0@ != name@,
        decreases i,
    {
        if entries[i - 1].0 == name {
            entries.push((name, v));
            let replaced = entries.swap_remove(i - 1);
            discard(replaced.1);
            proof {
                let after = entries@;
                assert(after =~= before.update(i - 1, after[i - 1]));
                lemma_replace_last(before, after, i - 1, n);
                if JsonValue::distinct_keys(before) {
                    assert forall|a: int, b: int| 0 <= a < b < after.len() implies (
                    #[trigger] after[a]).0@ != (#[trigger] after[b]).0@ by {
                        assert(after[a].0@ == before[a].0@);
                        assert(after[b].0@ == before[b].0@);
                    }
                }
                if JsonValue::members_wf(before) && v.wf() {
                    assert forall|a: int| 0 <= a < after.len() implies (
                    #[trigger] after[a]).1.wf() by {
                        if a != i - 1 {
                            assert(before[a] == after[a]);
                        }
                    }
                }
            }
            return ;
        }
        i -= 1;
    }
    entries.push((name, v));
    proof {
        let after = entries@;
        JsonValue::lemma_entries_view_prefix(before, after, n);
        if JsonValue::members_wf(before) && v.wf() {
            assert forall|a: int| 0 <= a < after.len() implies (#[trigger] after[a]).1.wf() by {
                if a < n {
                    assert(before[a] == after[a]);
                }
            }
        }
    }
}

impl JsonValue {
    /// The number of values in the tree.
    pub open spec fn size(&self) -> nat
        decreases self,
    {
        match self {
            JsonValue::Array(items) => 1 + Self::items_size(items@, items@.len() as int),
            JsonValue::Object(entries) => 1 + Self::entries_size(
                entries@,
                entries@.len() as int,
            ),
            _ => 1,
        }
    }

    /// The number of values in the first `n` of `items`.
    pub open spec fn items_size(items: Seq<JsonValue>, n: int) -> nat
        decreases items, n,
    {
        if 0 < n <= items.len() {
            Self::items_size(items, n - 1) + items[n - 1].size()
        } else {
            0
        }
    }

    /// The number of values in the first `n` of `entries`.
    pub open spec fn entries_size(entries: Seq<(String, JsonValue)>, n: int) -> nat
        decreases entries, n,
    {
        if 0 < n <= entries.len() {
            Self::entries_size(entries, n - 1) + entries[n - 1].1.size()
        } else {
            0
        }
    }

    /// Lists that agree in their first `n` values have the same size
    /// there.
    pub proof fn lemma_items_size_prefix(a: Seq<JsonValue>, b: Seq<JsonValue>, n: int)
        requires
            0 <= n <= a.len(),
            n <= b.len(),
            forall|i: int| 0 <= i < n ==> a[i] == b[i],
        ensures
            Self::items_size(a, n) == Self::items_size(b, n),
        decreases n,
    {
        if n > 0 {
            Self::lemma_items_size_prefix(a, b, n - 1);
        }
    }

    /// The size of a list is the sum of the sizes of its parts.
    pub proof fn lemma_items_size_parts(a: Seq<JsonValue>, b: Seq<JsonValue>, n: int)
        requires
            0 <= n <= b.len(),
        ensures
            Self::items_size(a + b, a.len() + n) == Self::items_size(a, a.len() as int)
                + Self::items_size(b, n),
        decreases n,
    {
        let whole = a + b;
        if n > 0 {
            Self::lemma_items_size_parts(a, b, n - 1);
            assert(whole[a.len() + n - 1] == b[n - 1]);
            assert(Self::items_size(whole, a.len() + n) == Self::items_size(
                whole,
                a.len() + n - 1,
            ) + whole[a.len() + n - 1].size());
        } else {
            Self::lemma_items_size_prefix(whole, a, a.len() as int);
        }
    }

    /// Lists that agree in their first `n` members have the same size
    /// there.
    pub proof fn lemma_entries_size_prefix(
        a: Seq<(String, JsonValue)>,
        b: Seq<(String, JsonValue)>,
        n: int,
    )
        requires
            0 <= n <= a.len(),
            n <= b.len(),
            forall|i: int| 0 <= i < n ==> a[i] == b[i],
        ensures
            Self::entries_size(a, n) == Self::entries_size(b, n),
        decreases n,
    {
        if n > 0 {
            Self::lemma_entries_size_prefix(a, b, n - 1);
        }
    }
}

/// Takes a value apart and drops it, however deep it is nested, without
/// recursion: the values that are still to be taken apart are kept in a
/// list.
pub fn discard(v: JsonValue) {
    let mut work: Vec<JsonValue> = Vec::new();
    work.push(v);
    while work.len() > 0
        decreases JsonValue::items_size(work@, work@.len() as int),
    {
        let ghost before = work@;
        let top = work.pop().unwrap();
        proof {
            assert(JsonValue::items_size(before, before.len() as int) == JsonValue::items_size(
                before,
                before.len() - 1,
            ) + top.size());
            JsonValue::lemma_items_size_prefix(before, work@, before.len() - 1);
        }
        match top {
            JsonValue::Array(items) => {
                let mut items = items;
                proof {
                    JsonValue::lemma_items_size_parts(work@, items@, items@.len() as int);
                }
                work.append(&mut items);
            },
            JsonValue::Object(entries) => {
                let mut entries = entries;
                while entries.len() > 0
                    invariant
                        JsonValue::items_size(work@, work@.len() as int)
                            + JsonValue::entries_size(entries@, entries@.len() as int) + 1
                            == JsonValue::items_size(before, before.len() as int),
                    decreases entries.len(),
                {
                    let ghost held = entries@;
                    let ghost done = work@;
                    let (_, x) = entries.pop().unwrap();
                    proof {
                        JsonValue::lemma_entries_size_prefix(held, entries@, held.len() - 1);
                        JsonValue::lemma_items_size_parts(done, seq![x], 1);
                        assert(done + seq![x] =~= done.push(x));
                        assert(JsonValue::items_size(seq![x], 1) == x.size()) by {
                            assert(JsonValue::items_size(seq![x], 0) == 0);
                        }
                    }
                    work.push(x);
                }
            },
            _ => {},
        }
    }
}

} // verus!
